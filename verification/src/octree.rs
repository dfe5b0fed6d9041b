//! Octree quantisation: pixels fall into nested cells, eight to a cell, and
//! cells are merged from the finest level up until few enough are left.

use vstd::prelude::*;
use crate::order::{is_permutation, key_order, stable_order};
use crate::scalar::Scalar;

verus! {

/// Number of levels below the root.
pub const MAX_DEPTH: usize = 8;

/// `8` to the power of `e`.
pub open spec fn pow8(e: int) -> int
    decreases e,
{
    if e <= 0 {
        1
    } else {
        8 * pow8(e - 1)
    }
}

/// The cell at `level` that holds the path `code`: its first `level` octants.
pub open spec fn cell_of(code: int, level: int) -> int {
    code / pow8(8 - level)
}

/// Bit `depth` of a channel, from the highest.
pub open spec fn channel_bit(v: u8, depth: int) -> int {
    (v as int / vstd::arithmetic::power2::pow2((7 - depth) as nat) as int) % 2
}

/// The bits of a channel, highest first, make up its value.
pub proof fn channel_bits_rebuild(v: u8)
    ensures
        v == 128 * channel_bit(v, 0) + 64 * channel_bit(v, 1) + 32 * channel_bit(v, 2) + 16
            * channel_bit(v, 3) + 8 * channel_bit(v, 4) + 4 * channel_bit(v, 5) + 2 * channel_bit(
            v,
            6,
        ) + channel_bit(v, 7),
        forall|d: int| 0 <= d < 8 ==> 0 <= #[trigger] channel_bit(v, d) <= 1,
{
    vstd::arithmetic::power2::lemma2_to64();
    let x = v as int;
    assert(channel_bit(v, 0) == (x / 128) % 2);
    assert(x / 1 == x);
    assert(vstd::arithmetic::power2::pow2(0) == 1);
    assert(channel_bit(v, 7) == x % 2);
    assert(x / 2 == 2 * (x / 4) + (x / 2) % 2);
    assert(x / 4 == 2 * (x / 8) + (x / 4) % 2);
    assert(x / 8 == 2 * (x / 16) + (x / 8) % 2);
    assert(x / 16 == 2 * (x / 32) + (x / 16) % 2);
    assert(x / 32 == 2 * (x / 64) + (x / 32) % 2);
    assert(x / 64 == 2 * (x / 128) + (x / 64) % 2);
    assert(x / 128 == (x / 128) % 2);
}

/// The octant of a colour at `depth`: one bit of each channel, red highest.
pub fn octant_index_bit(rgb: [u8; 3], depth: usize) -> (octant: usize)
    requires
        depth < MAX_DEPTH,
    ensures
        octant == 4 * channel_bit(rgb[0], depth as int) + 2 * channel_bit(rgb[1], depth as int)
            + channel_bit(rgb[2], depth as int),
        octant < 8,
{
    let shift: u8 = 7 - depth as u8;
    let r = bit_at(rgb[0], shift);
    let g = bit_at(rgb[1], shift);
    let b = bit_at(rgb[2], shift);
    4 * r + 2 * g + b
}

fn bit_at(v: u8, shift: u8) -> (b: usize)
    requires
        shift <= 7,
    ensures
        b == (v as int / vstd::arithmetic::power2::pow2(shift as nat) as int) % 2,
        b <= 1,
{
    proof {
        vstd::bits::lemma_u8_shr_is_div(v, shift);
        let q = v >> shift;
        assert(q & 1 == q % 2) by (bit_vector);
    }
    ((v >> shift) & 1) as usize
}

/// The octant of a point in a box with this middle: one bit for each coordinate
/// beyond it, the first lowest.
pub fn octant_index_range(coord: [Scalar; 3], mid: [Scalar; 3]) -> (octant: usize)
    ensures
        octant == (if mid[0].lt(coord[0]) {
            1int
        } else {
            0
        }) + (if mid[1].lt(coord[1]) {
            2int
        } else {
            0
        }) + (if mid[2].lt(coord[2]) {
            4int
        } else {
            0
        }),
        octant < 8,
{
    let mut octant: usize = 0;
    if mid[0].less(&coord[0]) {
        octant += 1;
    }
    if mid[1].less(&coord[1]) {
        octant += 2;
    }
    if mid[2].less(&coord[2]) {
        octant += 4;
    }
    octant
}

/// The first `k` octants read as digits.
pub open spec fn digits(octants: Seq<usize>, k: int) -> int
    decreases k,
{
    if k <= 0 {
        0
    } else {
        8 * digits(octants, k - 1) + octants[k - 1]
    }
}

/// The code of a path of eight octants.
pub fn path_code(octants: &[usize; 8]) -> (code: u32)
    requires
        forall|i: int| #![trigger octants@[i]] 0 <= i < 8 ==> octants@[i] < 8,
    ensures
        code == digits(octants@, 8),
        code < 0x100_0000,
{
    let mut code: u32 = 0;
    let mut i: usize = 0;
    let mut bound: u32 = 1;
    while i < 8
        invariant
            i <= 8,
            forall|i: int| #![trigger octants@[i]] 0 <= i < 8 ==> octants@[i] < 8,
            code == digits(octants@, i as int),
            bound == pow8(i as int),
            code < bound,
            bound <= 0x100_0000,
            i < 8 ==> bound <= 0x20_0000,
        decreases 8 - i,
    {
        proof {
            pow8_values();
        }
        code = 8 * code + octants[i] as u32;
        bound = 8 * bound;
        i += 1;
    }
    proof {
        pow8_values();
    }
    code
}

proof fn pow8_values()
    ensures
        pow8(0) == 1,
        pow8(1) == 8,
        pow8(2) == 64,
        pow8(3) == 512,
        pow8(4) == 4096,
        pow8(5) == 0x8000,
        pow8(6) == 0x4_0000,
        pow8(7) == 0x20_0000,
        pow8(8) == 0x100_0000,
{
    reveal_with_fuel(pow8, 10);
}

/// The code of a colour's path.
pub fn color_code(rgb: [u8; 3]) -> (code: u32)
    ensures
        exists|o: Seq<usize>|
            {
                &&& o.len() == 8
                &&& forall|d: int|
                    #![trigger o[d]]
                    0 <= d < 8 ==> o[d] == 4 * channel_bit(rgb[0], d) + 2 * channel_bit(rgb[1], d)
                        + channel_bit(rgb[2], d)
                &&& code == #[trigger] digits(o, 8)
            },
        code < 0x100_0000,
{
    let octants: [usize; 8] = [
        octant_index_bit(rgb, 0),
        octant_index_bit(rgb, 1),
        octant_index_bit(rgb, 2),
        octant_index_bit(rgb, 3),
        octant_index_bit(rgb, 4),
        octant_index_bit(rgb, 5),
        octant_index_bit(rgb, 6),
        octant_index_bit(rgb, 7),
    ];
    path_code(&octants)
}

/// The values in order of their first appearance.
pub open spec fn distinct(vals: Seq<int>) -> Seq<int>
    decreases vals.len(),
{
    if vals.len() == 0 {
        seq![]
    } else {
        let before = distinct(vals.drop_last());
        if vals.drop_last().contains(vals.last()) {
            before
        } else {
            before.push(vals.last())
        }
    }
}

/// The cells at `level` that hold pixels, in order of their first pixel.
pub open spec fn cells(codes: Seq<int>, level: int) -> Seq<int> {
    distinct(Seq::new(codes.len(), |i: int| cell_of(codes[i], level)))
}

/// `distinct` lists exactly the values, each once.
pub proof fn distinct_lists(vals: Seq<int>)
    ensures
        forall|v: int|
            #![trigger distinct(vals).contains(v)]
            #![trigger vals.contains(v)]
            distinct(vals).contains(v) <==> vals.contains(v),
        forall|i: int, j: int|
            #![trigger distinct(vals)[i], distinct(vals)[j]]
            0 <= i < j < distinct(vals).len() ==> distinct(vals)[i] != distinct(vals)[j],
        distinct(vals).len() <= vals.len(),
        vals.len() > 0 ==> distinct(vals).len() > 0,
    decreases vals.len(),
{
    if vals.len() > 0 {
        let rest = vals.drop_last();
        let x = vals.last();
        distinct_lists(rest);
        let before = distinct(rest);
        let now = distinct(vals);
        assert forall|v: int| now.contains(v) <==> vals.contains(v) by {
            if vals.contains(v) {
                let i = choose|i: int| 0 <= i < vals.len() && vals[i] == v;
                if i < rest.len() {
                    assert(rest[i] == v);
                    assert(before.contains(v));
                    let k = choose|k: int| 0 <= k < before.len() && before[k] == v;
                    assert(now[k] == v);
                } else if rest.contains(x) {
                    assert(before.contains(v));
                } else {
                    assert(now[now.len() - 1] == v);
                }
            }
            if now.contains(v) {
                let k = choose|k: int| 0 <= k < now.len() && now[k] == v;
                if k < before.len() {
                    assert(before[k] == v);
                    assert(rest.contains(v));
                    let i = choose|i: int| 0 <= i < rest.len() && rest[i] == v;
                    assert(vals[i] == v);
                } else {
                    assert(vals[vals.len() - 1] == v);
                }
            }
        }
        assert forall|i: int, j: int|
            #![trigger now[i], now[j]]
            0 <= i < j < now.len() implies now[i] != now[j] by {
            assert(now[i] == before[i]);
            if j == before.len() {
                assert(before.contains(before[i]));
            } else {
                assert(now[j] == before[j]);
            }
        }
        if before.len() == 0 && rest.len() > 0 {
            assert(distinct(rest).len() > 0);
        }
        if rest.len() > 0 {
            if rest.contains(x) {
                assert(now == before);
            }
        } else {
            assert(!rest.contains(x));
        }
    }
}

/// Number of the first `m` cells of the next level that lie in cell `v`.
pub open spec fn parts_in(next: Seq<int>, v: int, m: int) -> nat
    decreases m,
{
    if m <= 0 {
        0
    } else {
        parts_in(next, v, m - 1) + if next[m - 1] / 8 == v {
            1nat
        } else {
            0nat
        }
    }
}

/// Number of cells of the next level that lie in the first `j` of `level_cells`.
pub open spec fn parts_below(level_cells: Seq<int>, next: Seq<int>, j: int) -> nat
    decreases j,
{
    if j <= 0 {
        0
    } else {
        parts_below(level_cells, next, j - 1) + parts_in(
            next,
            level_cells[j - 1],
            next.len() as int,
        )
    }
}

/// Number of leaves when the cells of `level` from number `j` on are merged: the
/// merged cells, and the parts of the others.
pub open spec fn leaf_count(codes: Seq<int>, level: int, j: int) -> int {
    parts_below(cells(codes, level), cells(codes, level + 1), j) + cells(codes, level).len() - j
}

/// Where merging stops: level by level from the finest up, and from the newest
/// cell to the oldest, cells are merged as long as more than `k` leaves are left
/// and merging leaves at least `k`. Gives the level, how many of its cells stay
/// apart, and how many parts the last of those loses to get down to `k`.
pub open spec fn stop_at(codes: Seq<int>, k: int, level: int, j: int) -> (int, int, int)
    decreases level, j,
{
    let count = leaf_count(codes, level, j);
    if count <= k {
        (level, j, 0)
    } else if j <= 0 {
        if level <= 0 {
            (0, 0, 0)
        } else {
            stop_at(codes, k, level - 1, cells(codes, level - 1).len() as int)
        }
    } else if leaf_count(codes, level, j - 1) >= k {
        stop_at(codes, k, level, j - 1)
    } else {
        (level, j, count - k)
    }
}

/// Number of pixels below `n` in a cell.
pub open spec fn population(codes: Seq<int>, level: int, v: int, n: int) -> nat
    decreases n,
{
    if n <= 0 {
        0
    } else {
        population(codes, level, v, n - 1) + if cell_of(codes[n - 1], level) == v {
            1nat
        } else {
            0nat
        }
    }
}

/// The pixels below `n` in a cell, in order.
pub open spec fn inhabitants(codes: Seq<int>, level: int, v: int, n: int) -> Seq<usize>
    decreases n,
{
    if n <= 0 {
        seq![]
    } else if cell_of(codes[n - 1], level) == v {
        inhabitants(codes, level, v, n - 1).push((n - 1) as usize)
    } else {
        inhabitants(codes, level, v, n - 1)
    }
}

/// The parts of cell `v` among the cells `next`, in order of octant, below
/// octant `o`.
pub open spec fn kids(next: Seq<int>, v: int, o: int) -> Seq<int>
    decreases o,
{
    if o <= 0 {
        seq![]
    } else if next.contains(8 * v + o - 1) {
        kids(next, v, o - 1).push(8 * v + o - 1)
    } else {
        kids(next, v, o - 1)
    }
}

/// Number of pixels in each of a list of cells.
pub open spec fn sizes(codes: Seq<int>, level: int, list: Seq<int>) -> Seq<u64> {
    Seq::new(
        list.len(),
        |i: int| population(codes, level, list[i], codes.len() as int) as u64,
    )
}

/// The parts of cell `v` without the `need` smallest, smallest first.
pub open spec fn kept(codes: Seq<int>, level: int, next: Seq<int>, v: int, need: int) -> Seq<int> {
    let all = kids(next, v, 8);
    let order = key_order(sizes(codes, level, all));
    Seq::new((all.len() - need) as nat, |i: int| all[order[need + i] as int])
}

/// The cells `list` at `level`.
pub open spec fn at_level(level: int, list: Seq<int>) -> Seq<(int, int)> {
    Seq::new(list.len(), |i: int| (level, list[i]))
}

/// The parts of the first `j` cells of `here`.
pub open spec fn parts_of(here: Seq<int>, next: Seq<int>, level: int, j: int) -> Seq<(int, int)>
    decreases j,
{
    if j <= 0 {
        seq![]
    } else {
        parts_of(here, next, level, j - 1) + at_level(level + 1, kids(next, here[j - 1], 8))
    }
}

/// The leaves, as level and cell, when merging stops at `s`: the cells that are
/// merged, and the parts of those that are not.
pub open spec fn leaf_list(codes: Seq<int>, s: (int, int, int)) -> Seq<(int, int)> {
    let (level, j, need) = s;
    let here = cells(codes, level);
    let next = cells(codes, level + 1);
    let merged = at_level(level, here.skip(j));
    if need > 0 {
        merged + parts_of(here, next, level, j - 1) + at_level(
            level + 1,
            kept(codes, level + 1, next, here[j - 1], need),
        )
    } else {
        merged + parts_of(here, next, level, j)
    }
}

/// Sort keys that put the highest path first.
pub open spec fn path_keys(list: Seq<(int, int)>) -> Seq<u64> {
    Seq::new(
        list.len(),
        |i: int| (pow8(8) - list[i].1 * pow8(8 - list[i].0)) as u64,
    )
}

/// A leaf of the octree, with its pixels.
#[derive(Clone, Debug)]
pub struct OctreeLeaf {
    pub level: usize,
    pub cell: u32,
    pub pixels: Vec<usize>,
}

/// `out` lists the leaves from the highest path down, each with its pixels.
pub open spec fn is_quantised(codes: Seq<int>, k: int, out: Seq<OctreeLeaf>) -> bool {
    let s = stop_at(codes, k, 7, cells(codes, 7).len() as int);
    let list = leaf_list(codes, s);
    let order = key_order(path_keys(list));
    &&& out.len() == list.len()
    &&& forall|t: int| #![trigger out[t]] 0 <= t < out.len() ==> leaf_is(codes, out[t], list[order[t] as int])
}

/// The leaf is this cell, with its pixels.
pub open spec fn leaf_is(codes: Seq<int>, leaf: OctreeLeaf, cell: (int, int)) -> bool {
    &&& leaf.level == cell.0
    &&& leaf.cell == cell.1
    &&& leaf.pixels@ == inhabitants(codes, cell.0, cell.1, codes.len() as int)
}

proof fn parts_add_up(level_cells: Seq<int>, next: Seq<int>, m: int)
    requires
        0 <= m <= next.len(),
        forall|i: int, j: int|
            #![trigger level_cells[i], level_cells[j]]
            0 <= i < j < level_cells.len() ==> level_cells[i] != level_cells[j],
        forall|c: int|
            #![trigger next[c]]
            0 <= c < m ==> level_cells.contains(next[c] / 8),
    ensures
        parts_total(level_cells, next, level_cells.len() as int, m) == m,
    decreases m,
{
    if m > 0 {
        parts_add_up(level_cells, next, m - 1);
        assert(level_cells.contains(next[m - 1] / 8));
        let own = choose|i: int| 0 <= i < level_cells.len() && level_cells[i] == next[m - 1] / 8;
        parts_one_more(level_cells, next, level_cells.len() as int, m, own);
    } else {
        parts_none(level_cells, next, level_cells.len() as int);
    }
}

spec fn parts_total(level_cells: Seq<int>, next: Seq<int>, j: int, m: int) -> nat
    decreases j,
{
    if j <= 0 {
        0
    } else {
        parts_total(level_cells, next, j - 1, m) + parts_in(next, level_cells[j - 1], m)
    }
}

proof fn parts_none(level_cells: Seq<int>, next: Seq<int>, j: int)
    ensures
        parts_total(level_cells, next, j, 0) == 0,
    decreases j,
{
    if j > 0 {
        parts_none(level_cells, next, j - 1);
    }
}

proof fn parts_one_more(level_cells: Seq<int>, next: Seq<int>, j: int, m: int, own: int)
    requires
        0 < m <= next.len(),
        0 <= j <= level_cells.len(),
        0 <= own < level_cells.len(),
        level_cells[own] == next[m - 1] / 8,
        forall|a: int, b: int|
            #![trigger level_cells[a], level_cells[b]]
            0 <= a < b < level_cells.len() ==> level_cells[a] != level_cells[b],
    ensures
        parts_total(level_cells, next, j, m) == parts_total(level_cells, next, j, m - 1) + if own
            < j {
            1nat
        } else {
            0nat
        },
    decreases j,
{
    if j > 0 {
        parts_one_more(level_cells, next, j - 1, m, own);
        if own < j - 1 {
            assert(level_cells[own] != level_cells[j - 1]);
        }
        if j - 1 < own {
            assert(level_cells[j - 1] != level_cells[own]);
        }
    }
}

proof fn parts_below_is_total(level_cells: Seq<int>, next: Seq<int>, j: int)
    ensures
        parts_below(level_cells, next, j) == parts_total(
            level_cells,
            next,
            j,
            next.len() as int,
        ),
    decreases j,
{
    if j > 0 {
        parts_below_is_total(level_cells, next, j - 1);
    }
}

/// A cell lies in the cell one level up.
pub proof fn cell_of_parent(code: int, level: int)
    requires
        0 <= code,
        0 <= level < 8,
    ensures
        cell_of(code, level + 1) / 8 == cell_of(code, level),
{
    pow8_values();
    let p = pow8(7 - level);
    assert(pow8(8 - level) == 8 * p);
    assert(p > 0) by {
        pow8_positive(7 - level);
    }
    vstd::arithmetic::div_mod::lemma_div_denominator(code, p, 8);
    assert(p * 8 == 8 * p);
}

proof fn pow8_positive(e: int)
    ensures
        pow8(e) >= 1,
    decreases e,
{
    if e > 0 {
        pow8_positive(e - 1);
    }
}

/// Every cell with pixels lies in a cell with pixels one level up, and all parts
/// of all cells of a level are the cells of the next.
pub proof fn levels_nest(codes: Seq<int>, level: int)
    requires
        forall|i: int| #![trigger codes[i]] 0 <= i < codes.len() ==> 0 <= codes[i],
        0 <= level < 8,
    ensures
        forall|c: int|
            #![trigger cells(codes, level + 1)[c]]
            0 <= c < cells(codes, level + 1).len() ==> cells(codes, level).contains(
                cells(codes, level + 1)[c] / 8,
            ),
        parts_below(
            cells(codes, level),
            cells(codes, level + 1),
            cells(codes, level).len() as int,
        ) == cells(codes, level + 1).len(),
{
    let up = Seq::new(codes.len(), |i: int| cell_of(codes[i], level));
    let down = Seq::new(codes.len(), |i: int| cell_of(codes[i], level + 1));
    distinct_lists(up);
    distinct_lists(down);
    let here = cells(codes, level);
    let next = cells(codes, level + 1);
    assert forall|c: int| #![trigger next[c]] 0 <= c < next.len() implies here.contains(
        next[c] / 8,
    ) by {
        assert(next.contains(next[c]));
        let i = choose|i: int| 0 <= i < down.len() && down[i] == next[c];
        assert(codes[i] >= 0);
        cell_of_parent(codes[i], level);
        assert(up[i] == next[c] / 8);
        assert(up.contains(next[c] / 8));
    }
    parts_below_is_total(here, next, here.len() as int);
    parts_add_up(here, next, next.len() as int);
}

/// Merging stops with as many leaves as are wanted, or with all cells there are
/// where they are fewer.
pub proof fn merging_reaches_target(codes: Seq<int>, k: int, level: int, j: int)
    requires
        forall|i: int| #![trigger codes[i]] 0 <= i < codes.len() ==> 0 <= codes[i] < pow8(8),
        codes.len() > 0,
        k >= 1,
        0 <= level < 8,
        0 <= j <= cells(codes, level).len(),
    ensures
        ({
            let (l, i, need) = stop_at(codes, k, level, j);
            let left = leaf_count(codes, l, i) - need;
            &&& 0 <= l <= level
            &&& 0 <= i <= cells(codes, l).len()
            &&& 0 <= need
            &&& need > 0 ==> i > 0 && need < parts_in(
                cells(codes, l + 1),
                cells(codes, l)[i - 1],
                cells(codes, l + 1).len() as int,
            )
            &&& left == if leaf_count(codes, level, j) <= k {
                leaf_count(codes, level, j)
            } else {
                k
            }
        }),
    decreases level, j,
{
    let count = leaf_count(codes, level, j);
    if count > k {
        if j <= 0 {
            if level <= 0 {
                root_is_one(codes);
            } else {
                levels_nest(codes, level - 1);
                merging_reaches_target(codes, k, level - 1, cells(codes, level - 1).len() as int);
            }
        } else if leaf_count(codes, level, j - 1) >= k {
            merging_reaches_target(codes, k, level, j - 1);
        }
    }
}

proof fn root_is_one(codes: Seq<int>)
    requires
        forall|i: int| #![trigger codes[i]] 0 <= i < codes.len() ==> 0 <= codes[i] < pow8(8),
        codes.len() > 0,
    ensures
        cells(codes, 0).len() == 1,
{
    let vals = Seq::new(codes.len(), |i: int| cell_of(codes[i], 0));
    pow8_values();
    assert forall|i: int| #![trigger vals[i]] 0 <= i < vals.len() implies vals[i] == 0 by {
        assert(0 <= codes[i] < pow8(8));
        assert(codes[i] / pow8(8) == 0);
    }
    distinct_lists(vals);
    let d = distinct(vals);
    if d.len() > 1 {
        assert(d.contains(d[0]));
        assert(d.contains(d[1]));
        let a = choose|i: int| 0 <= i < vals.len() && vals[i] == d[0];
        let b = choose|i: int| 0 <= i < vals.len() && vals[i] == d[1];
        assert(vals[a] == 0 && vals[b] == 0);
    }
}

/// A cell has as many parts as octants in use.
pub proof fn kids_counted(next: Seq<int>, v: int)
    requires
        forall|i: int, j: int|
            #![trigger next[i], next[j]]
            0 <= i < j < next.len() ==> next[i] != next[j],
    ensures
        kids(next, v, 8).len() == parts_in(next, v, next.len() as int),
        kids(next, v, 8).len() <= 8,
{
    kids_of_prefix(next, v, next.len() as int);
    assert(next.take(next.len() as int) =~= next);
    kids_short(next, v, 8);
}

pub proof fn kids_short(next: Seq<int>, v: int, o: int)
    requires
        0 <= o,
    ensures
        kids(next, v, o).len() <= o,
        forall|i: int|
            #![trigger kids(next, v, o)[i]]
            0 <= i < kids(next, v, o).len() ==> 8 * v <= kids(next, v, o)[i] < 8 * v + o
                && next.contains(kids(next, v, o)[i]),
    decreases o,
{
    if o > 0 {
        kids_short(next, v, o - 1);
    }
}

proof fn kids_of_prefix(next: Seq<int>, v: int, m: int)
    requires
        0 <= m <= next.len(),
        forall|i: int, j: int|
            #![trigger next[i], next[j]]
            0 <= i < j < next.len() ==> next[i] != next[j],
    ensures
        kids(next.take(m), v, 8).len() == parts_in(next, v, m),
    decreases m,
{
    if m > 0 {
        kids_of_prefix(next, v, m - 1);
        let a = next.take(m - 1);
        let b = next.take(m);
        let x = next[m - 1];
        assert(b =~= a.push(x));
        assert(!a.contains(x)) by {
            if a.contains(x) {
                let i = choose|i: int| 0 <= i < a.len() && a[i] == x;
                assert(next[i] == next[m - 1]);
            }
        }
        kids_one_more(a, x, v, 8);
        assert(x / 8 == v <==> 8 * v <= x < 8 * v + 8);
    } else {
        kids_none(next.take(0), v, 8);
    }
}

proof fn kids_none(next: Seq<int>, v: int, o: int)
    requires
        next.len() == 0,
    ensures
        kids(next, v, o).len() == 0,
    decreases o,
{
    if o > 0 {
        kids_none(next, v, o - 1);
    }
}

proof fn kids_one_more(a: Seq<int>, x: int, v: int, o: int)
    requires
        !a.contains(x),
        0 <= o <= 8,
    ensures
        kids(a.push(x), v, o).len() == kids(a, v, o).len() + if 8 * v <= x < 8 * v + o {
            1nat
        } else {
            0nat
        },
    decreases o,
{
    if o > 0 {
        kids_one_more(a, x, v, o - 1);
        let c = 8 * v + o - 1;
        let b = a.push(x);
        if a.contains(c) {
            let i = choose|i: int| 0 <= i < a.len() && a[i] == c;
            assert(b[i] == c);
        }
        if b.contains(c) {
            let i = choose|i: int| 0 <= i < b.len() && b[i] == c;
            if i < a.len() {
                assert(a[i] == c);
            }
        }
        if x == c {
            assert(b[a.len() as int] == c);
        }
    }
}

proof fn parts_of_counted(here: Seq<int>, next: Seq<int>, level: int, j: int)
    requires
        0 <= j <= here.len(),
        forall|a: int, b: int|
            #![trigger next[a], next[b]]
            0 <= a < b < next.len() ==> next[a] != next[b],
    ensures
        parts_of(here, next, level, j).len() == parts_below(here, next, j),
    decreases j,
{
    if j > 0 {
        parts_of_counted(here, next, level, j - 1);
        kids_counted(next, here[j - 1]);
    }
}

/// The octree has as many leaves as are wanted, or one for each finest cell
/// where those are fewer.
pub proof fn leaves_counted(codes: Seq<int>, k: int)
    requires
        forall|i: int| #![trigger codes[i]] 0 <= i < codes.len() ==> 0 <= codes[i] < pow8(8),
        codes.len() > 0,
        k >= 1,
    ensures
        ({
            let finest = cells(codes, 8).len();
            let s = stop_at(codes, k, 7, cells(codes, 7).len() as int);
            leaf_list(codes, s).len() == if finest <= k {
                finest as int
            } else {
                k
            }
        }),
{
    let start = cells(codes, 7).len() as int;
    levels_nest(codes, 7);
    merging_reaches_target(codes, k, 7, start);
    let (level, j, need) = stop_at(codes, k, 7, start);
    let here = cells(codes, level);
    let next = cells(codes, level + 1);
    distinct_lists(Seq::new(codes.len(), |i: int| cell_of(codes[i], level + 1)));
    parts_of_counted(here, next, level, j);
    if need > 0 {
        kids_counted(next, here[j - 1]);
    }
}

/// Path codes have at most eight octants.
pub proof fn codes_below(codes: Seq<u32>)
    requires
        codes_wf(codes),
    ensures
        forall|i: int|
            #![trigger ints(codes)[i]]
            0 <= i < ints(codes).len() ==> 0 <= ints(codes)[i] < pow8(8),
{
    pow8_values();
    assert forall|i: int| #![trigger ints(codes)[i]] 0 <= i < ints(codes).len() implies 0 <= ints(
        codes,
    )[i] < pow8(8) by {
        assert(codes[i] < 0x100_0000);
    }
}

/// The values as integers.
pub open spec fn ints(s: Seq<u32>) -> Seq<int> {
    Seq::new(s.len(), |i: int| s[i] as int)
}

/// Every code is a path of eight octants.
pub open spec fn codes_wf(codes: Seq<u32>) -> bool {
    forall|i: int| #![trigger codes[i]] 0 <= i < codes.len() ==> codes[i] < 0x100_0000
}

fn cells_per_level(level: usize) -> (p: u32)
    requires
        level <= 8,
    ensures
        p == pow8(level as int),
        1 <= p <= 0x100_0000,
{
    proof {
        pow8_values();
    }
    if level == 0 {
        1
    } else if level == 1 {
        8
    } else if level == 2 {
        64
    } else if level == 3 {
        512
    } else if level == 4 {
        4096
    } else if level == 5 {
        0x8000
    } else if level == 6 {
        0x4_0000
    } else if level == 7 {
        0x20_0000
    } else {
        0x100_0000
    }
}

proof fn cell_in_range(code: int, level: int)
    requires
        0 <= code < pow8(8),
        0 <= level <= 8,
    ensures
        0 <= cell_of(code, level) < pow8(level),
{
    pow8_values();
    let p = pow8(8 - level);
    let q = pow8(level);
    assert(p * q == pow8(8)) by {
        assert(level == 0 || level == 1 || level == 2 || level == 3 || level == 4 || level == 5
            || level == 6 || level == 7 || level == 8);
    }
    pow8_positive(8 - level);
    assert(0 <= code / p < q) by (nonlinear_arith)
        requires
            0 <= code < p * q,
            p >= 1,
    ;
}

/// The cell of each pixel at a level.
fn cells_of(codes: &[u32], level: usize) -> (out: Vec<u32>)
    requires
        codes_wf(codes@),
        level <= 8,
    ensures
        out@.len() == codes@.len(),
        forall|i: int|
            #![trigger out@[i]]
            0 <= i < out@.len() ==> out@[i] == cell_of(codes@[i] as int, level as int) && out@[i]
                < pow8(level as int),
{
    let p = cells_per_level(8 - level);
    let mut out: Vec<u32> = Vec::new();
    let mut i: usize = 0;
    while i < codes.len()
        invariant
            i <= codes@.len(),
            codes_wf(codes@),
            level <= 8,
            p == pow8(8 - level),
            p >= 1,
            out@.len() == i,
            forall|k: int|
                #![trigger out@[k]]
                0 <= k < i ==> out@[k] == cell_of(codes@[k] as int, level as int) && out@[k] < pow8(
                    level as int,
                ),
        decreases codes@.len() - i,
    {
        proof {
            pow8_values();
            assert(codes@[i as int] < 0x100_0000);
            cell_in_range(codes@[i as int] as int, level as int);
        }
        out.push(codes[i] / p);
        i += 1;
    }
    out
}

fn flags(n: usize) -> (v: Vec<bool>)
    ensures
        v@.len() == n,
        forall|i: int| #![trigger v@[i]] 0 <= i < n ==> !v@[i],
{
    let mut v: Vec<bool> = Vec::new();
    let mut i: usize = 0;
    while i < n
        invariant
            i <= n,
            v@.len() == i,
            forall|k: int| #![trigger v@[k]] 0 <= k < i ==> !v@[k],
        decreases n - i,
    {
        v.push(false);
        i += 1;
    }
    v
}

fn zeros(n: usize) -> (v: Vec<usize>)
    ensures
        v@.len() == n,
        forall|i: int| #![trigger v@[i]] 0 <= i < n ==> v@[i] == 0,
{
    let mut v: Vec<usize> = Vec::new();
    let mut i: usize = 0;
    while i < n
        invariant
            i <= n,
            v@.len() == i,
            forall|k: int| #![trigger v@[k]] 0 <= k < i ==> v@[k] == 0,
        decreases n - i,
    {
        v.push(0);
        i += 1;
    }
    v
}

/// The values in order of first appearance, and which values appear.
fn distinct_values(vals: &[u32], bound: u32) -> (r: (Vec<u32>, Vec<bool>))
    requires
        forall|i: int| #![trigger vals@[i]] 0 <= i < vals@.len() ==> vals@[i] < bound,
    ensures
        ints(r.0@) == distinct(ints(vals@)),
        forall|i: int| #![trigger r.0@[i]] 0 <= i < r.0@.len() ==> r.0@[i] < bound,
        r.1@.len() == bound,
        forall|v: int|
            #![trigger r.1@[v]]
            0 <= v < bound ==> r.1@[v] == ints(vals@).contains(v),
{
    let mut seen = flags(bound as usize);
    let mut out: Vec<u32> = Vec::new();
    let ghost all = ints(vals@);
    let mut i: usize = 0;
    assert(all.take(0) =~= seq![]);
    assert(ints(out@) =~= distinct(all.take(0)));
    while i < vals.len()
        invariant
            i <= vals@.len(),
            all == ints(vals@),
            forall|i: int| #![trigger vals@[i]] 0 <= i < vals@.len() ==> vals@[i] < bound,
            ints(out@) == distinct(all.take(i as int)),
            forall|i: int| #![trigger out@[i]] 0 <= i < out@.len() ==> out@[i] < bound,
            seen@.len() == bound,
            forall|v: int|
                #![trigger seen@[v]]
                0 <= v < bound ==> seen@[v] == all.take(i as int).contains(v),
        decreases vals@.len() - i,
    {
        let x = vals[i];
        let ghost rest = all.take(i as int);
        let ghost now = all.take(i + 1);
        let ghost out0 = out@;
        let ghost seen0 = seen@;
        assert(now.drop_last() =~= rest);
        assert(now.last() == x);
        if !seen[x as usize] {
            seen.set(x as usize, true);
            out.push(x);
            assert(ints(out@) =~= ints(out0).push(x as int));
        }
        proof {
            assert(now =~= rest.push(x as int));
            assert forall|v: int| #![trigger seen@[v]] 0 <= v < bound implies seen@[v]
                == now.contains(v) by {
                assert(seen0[v] == rest.contains(v));
                if rest.contains(v) {
                    let k = choose|k: int| 0 <= k < rest.len() && rest[k] == v;
                    assert(now[k] == v);
                }
                if now.contains(v) && v != x {
                    let k = choose|k: int| 0 <= k < now.len() && now[k] == v;
                    assert(rest[k] == v);
                }
                if v == x {
                    assert(now[i as int] == v);
                }
            }
        }
        i += 1;
    }
    assert(all.take(all.len() as int) =~= all);
    (out, seen)
}

/// The cells of a level, in order of first pixel, and which cells hold pixels.
fn level_cells(codes: &[u32], level: usize) -> (r: (Vec<u32>, Vec<bool>))
    requires
        codes_wf(codes@),
        level <= 8,
    ensures
        ints(r.0@) == cells(ints(codes@), level as int),
        forall|i: int| #![trigger r.0@[i]] 0 <= i < r.0@.len() ==> r.0@[i] < pow8(level as int),
        r.1@.len() == pow8(level as int),
        forall|v: int|
            #![trigger r.1@[v]]
            0 <= v < r.1@.len() ==> r.1@[v] == cells(ints(codes@), level as int).contains(v),
{
    let vals = cells_of(codes, level);
    let bound = cells_per_level(level);
    let r = distinct_values(&vals, bound);
    proof {
        let c = ints(codes@);
        assert(ints(vals@) =~= Seq::new(c.len(), |i: int| cell_of(c[i], level as int)));
        distinct_lists(ints(vals@));
    }
    r
}

/// Number of parts of each cell.
fn count_parts(next: &[u32], bound: u32) -> (counts: Vec<usize>)
    requires
        forall|i: int| #![trigger next@[i]] 0 <= i < next@.len() ==> next@[i] / 8 < bound,
    ensures
        counts@.len() == bound,
        forall|v: int|
            #![trigger counts@[v]]
            0 <= v < bound ==> counts@[v] == parts_in(ints(next@), v, next@.len() as int),
{
    let mut counts = zeros(bound as usize);
    let mut i: usize = 0;
    while i < next.len()
        invariant
            i <= next@.len(),
            forall|i: int| #![trigger next@[i]] 0 <= i < next@.len() ==> next@[i] / 8 < bound,
            counts@.len() == bound,
            forall|v: int|
                #![trigger counts@[v]]
                0 <= v < bound ==> counts@[v] == parts_in(ints(next@), v, i as int) && counts@[v]
                    <= i,
        decreases next@.len() - i,
    {
        let v = (next[i] / 8) as usize;
        assert(next@[i as int] / 8 < bound);
        let ghost before = counts@;
        let c = counts[v];
        counts.set(v, c + 1);
        proof {
            assert forall|u: int| #![trigger counts@[u]] 0 <= u < bound implies counts@[u]
                == parts_in(ints(next@), u, i + 1) && counts@[u] <= i + 1 by {
                assert(before[u] == parts_in(ints(next@), u, i as int));
            }
        }
        i += 1;
    }
    counts
}

/// The parts of cell `v`, in order of octant.
fn list_kids(present: &[bool], v: u32, Ghost(next): Ghost<Seq<int>>) -> (out: Vec<u32>)
    requires
        8 * v + 8 <= present@.len(),
        present@.len() <= 0x100_0000,
        forall|u: int|
            #![trigger present@[u]]
            0 <= u < present@.len() ==> present@[u] == next.contains(u),
    ensures
        ints(out@) == kids(next, v as int, 8),
        forall|i: int| #![trigger out@[i]] 0 <= i < out@.len() ==> out@[i] < present@.len(),
{
    let mut out: Vec<u32> = Vec::new();
    let mut o: u32 = 0;
    assert(ints(out@) =~= kids(next, v as int, 0));
    while o < 8
        invariant
            o <= 8,
            8 * v + 8 <= present@.len(),
            present@.len() <= 0x100_0000,
            forall|u: int|
                #![trigger present@[u]]
                0 <= u < present@.len() ==> present@[u] == next.contains(u),
            ints(out@) == kids(next, v as int, o as int),
            forall|i: int| #![trigger out@[i]] 0 <= i < out@.len() ==> out@[i] < present@.len(),
        decreases 8 - o,
    {
        let c: u32 = 8 * v + o;
        let ghost before = out@;
        if present[c as usize] {
            out.push(c);
            assert(ints(out@) =~= ints(before).push(c as int));
        }
        o += 1;
    }
    out
}

/// Number of pixels in a cell.
fn count_pixels(codes: &[u32], level: usize, cell: u32) -> (count: usize)
    requires
        codes_wf(codes@),
        level <= 8,
    ensures
        count == population(ints(codes@), level as int, cell as int, codes@.len() as int),
{
    let p = cells_per_level(8 - level);
    let mut count: usize = 0;
    let mut i: usize = 0;
    while i < codes.len()
        invariant
            i <= codes@.len(),
            level <= 8,
            p == pow8(8 - level),
            p >= 1,
            count == population(ints(codes@), level as int, cell as int, i as int),
            count <= i,
        decreases codes@.len() - i,
    {
        if codes[i] / p == cell {
            count += 1;
        }
        i += 1;
    }
    count
}

/// The pixels of a cell.
fn list_pixels(codes: &[u32], level: usize, cell: u32) -> (out: Vec<usize>)
    requires
        codes_wf(codes@),
        level <= 8,
    ensures
        out@ == inhabitants(ints(codes@), level as int, cell as int, codes@.len() as int),
{
    let p = cells_per_level(8 - level);
    let mut out: Vec<usize> = Vec::new();
    let mut i: usize = 0;
    while i < codes.len()
        invariant
            i <= codes@.len(),
            level <= 8,
            p == pow8(8 - level),
            p >= 1,
            out@ == inhabitants(ints(codes@), level as int, cell as int, i as int),
        decreases codes@.len() - i,
    {
        if codes[i] / p == cell {
            out.push(i);
        }
        i += 1;
    }
    out
}

/// The parts of cell `v` without the `need` smallest.
fn keep_largest(
    codes: &[u32],
    level: usize,
    present: &[bool],
    v: u32,
    need: usize,
    Ghost(next): Ghost<Seq<int>>,
) -> (out: Vec<u32>)
    requires
        codes_wf(codes@),
        level <= 8,
        8 * v + 8 <= present@.len(),
        present@.len() <= 0x100_0000,
        forall|u: int|
            #![trigger present@[u]]
            0 <= u < present@.len() ==> present@[u] == next.contains(u),
        need <= kids(next, v as int, 8).len(),
    ensures
        ints(out@) == kept(ints(codes@), level as int, next, v as int, need as int),
        forall|i: int| #![trigger out@[i]] 0 <= i < out@.len() ==> out@[i] < present@.len(),
{
    let all = list_kids(present, v, Ghost(next));
    let mut counts: Vec<u64> = Vec::new();
    let mut i: usize = 0;
    while i < all.len()
        invariant
            i <= all@.len(),
            codes_wf(codes@),
            level <= 8,
            counts@.len() == i,
            forall|k: int|
                #![trigger counts@[k]]
                0 <= k < i ==> counts@[k] == sizes(ints(codes@), level as int, ints(all@))[k],
        decreases all@.len() - i,
    {
        counts.push(count_pixels(codes, level, all[i]) as u64);
        i += 1;
    }
    assert(counts@ =~= sizes(ints(codes@), level as int, ints(all@)));
    let order = stable_order(&counts);
    let mut out: Vec<u32> = Vec::new();
    let mut t: usize = need;
    let ghost goal = kept(ints(codes@), level as int, next, v as int, need as int);
    while t < order.len()
        invariant
            need <= t <= order@.len(),
            is_permutation(order@, all@.len() as int),
            goal.len() == all@.len() - need,
            forall|k: int|
                #![trigger goal[k]]
                0 <= k < goal.len() ==> goal[k] == all@[order@[need + k] as int],
            forall|i: int| #![trigger all@[i]] 0 <= i < all@.len() ==> all@[i] < present@.len(),
            out@.len() == t - need,
            forall|k: int| #![trigger out@[k]] 0 <= k < out@.len() ==> out@[k] == goal[k] && out@[k] < present@.len(),
        decreases order@.len() - t,
    {
        assert(goal[t - need] == all@[order@[t as int] as int]);
        out.push(all[order[t]]);
        t += 1;
    }
    assert(ints(out@) =~= goal);
    out
}

/// Where merging stopped.
struct Stop {
    level: usize,
    kept_apart: usize,
    need: usize,
    here: Vec<u32>,
    next: Vec<bool>,
}

/// Merges cells until no more than `k` are left.
fn find_stop(codes: &[u32], k: usize) -> (s: Stop)
    requires
        codes_wf(codes@),
        codes@.len() > 0,
        k >= 1,
    ensures
        (s.level as int, s.kept_apart as int, s.need as int) == stop_at(
            ints(codes@),
            k as int,
            7,
            cells(ints(codes@), 7).len() as int,
        ),
        s.level <= 7,
        ints(s.here@) == cells(ints(codes@), s.level as int),
        forall|i: int|
            #![trigger s.here@[i]]
            0 <= i < s.here@.len() ==> s.here@[i] < pow8(s.level as int),
        s.next@.len() == pow8(s.level + 1),
        forall|v: int|
            #![trigger s.next@[v]]
            0 <= v < s.next@.len() ==> s.next@[v] == cells(
                ints(codes@),
                s.level + 1,
            ).contains(v),
{
    let ghost c = ints(codes@);
    proof {
        pow8_values();
        assert forall|i: int| #![trigger c[i]] 0 <= i < c.len() implies 0 <= c[i] < pow8(8) by {
            assert(codes@[i] < 0x100_0000);
        }
    }
    let mut level: usize = 7;
    let (mut next, mut next_present) = level_cells(codes, 8);
    let (mut here, mut here_present) = level_cells(codes, 7);
    let mut counts = count_level(&next, 7, Ghost(c));
    let mut j: usize = here.len();
    let mut count: usize = next.len();
    let mut need: usize = 0;
    proof {
        levels_nest(c, 7);
        assert(here@.len() == ints(here@).len());
        assert(next@.len() == ints(next@).len());
    }
    let ghost goal = stop_at(c, k as int, 7, cells(c, 7).len() as int);
    loop
        invariant_except_break
            need == 0,
            goal == stop_at(c, k as int, level as int, j as int),
        invariant
            codes_wf(codes@),
            c == ints(codes@),
            codes@.len() > 0,
            k >= 1,
            forall|i: int| #![trigger c[i]] 0 <= i < c.len() ==> 0 <= c[i] < pow8(8),
            level <= 7,
            ints(here@) == cells(c, level as int),
            ints(next@) == cells(c, level + 1),
            forall|i: int|
                #![trigger here@[i]]
                0 <= i < here@.len() ==> here@[i] < pow8(level as int),
            here_present@.len() == pow8(level as int),
            forall|v: int|
                #![trigger here_present@[v]]
                0 <= v < here_present@.len() ==> here_present@[v] == cells(c, level as int).contains(v),
            next_present@.len() == pow8(level + 1),
            forall|v: int|
                #![trigger next_present@[v]]
                0 <= v < next_present@.len() ==> next_present@[v] == cells(c, level + 1).contains(v),
            counts@.len() == pow8(level as int),
            forall|v: int|
                #![trigger counts@[v]]
                0 <= v < counts@.len() ==> counts@[v] == parts_in(
                    cells(c, level + 1),
                    v,
                    cells(c, level + 1).len() as int,
                ),
            j <= here@.len(),
            count == leaf_count(c, level as int, j as int),
        ensures
            (level as int, j as int, need as int) == goal,
        decreases level, j,
    {
        if count <= k {
            break ;
        }
        if j == 0 {
            if level == 0 {
                proof {
                    root_is_one(c);
                }
                break ;
            }
            level -= 1;
            next = here;
            next_present = here_present;
            let (h, p) = level_cells(codes, level);
            here = h;
            here_present = p;
            counts = count_level(&next, level, Ghost(c));
            j = here.len();
            proof {
                levels_nest(c, level as int);
                assert(here@.len() == ints(here@).len());
                assert(next@.len() == ints(next@).len());
            }
        } else {
            let v = here[j - 1];
            assert(ints(here@)[j - 1] == v);
            let parts = counts[v as usize];
            proof {
                parts_below_positive(c, level as int, j as int);
            }
            let after: usize = count - parts + 1;
            if after >= k {
                count = after;
                j -= 1;
            } else {
                need = count - k;
                break ;
            }
        }
    }
    Stop { level, kept_apart: j, need, here, next: next_present }
}

/// A leaf count has room for the parts of the last cell that is apart, of which
/// there is at least one.
proof fn parts_below_positive(codes: Seq<int>, level: int, j: int)
    requires
        forall|i: int| #![trigger codes[i]] 0 <= i < codes.len() ==> 0 <= codes[i] < pow8(8),
        0 <= level <= 7,
        0 < j <= cells(codes, level).len(),
    ensures
        leaf_count(codes, level, j) >= parts_in(
            cells(codes, level + 1),
            cells(codes, level)[j - 1],
            cells(codes, level + 1).len() as int,
        ) >= 1,
        leaf_count(codes, level, j - 1) == leaf_count(codes, level, j) - parts_in(
            cells(codes, level + 1),
            cells(codes, level)[j - 1],
            cells(codes, level + 1).len() as int,
        ) + 1,
{
    let here = cells(codes, level);
    let next = cells(codes, level + 1);
    let up = Seq::new(codes.len(), |i: int| cell_of(codes[i], level));
    let down = Seq::new(codes.len(), |i: int| cell_of(codes[i], level + 1));
    distinct_lists(up);
    distinct_lists(down);
    let v = here[j - 1];
    assert(here.contains(v));
    let i = choose|i: int| 0 <= i < up.len() && up[i] == v;
    assert(0 <= codes[i]);
    cell_of_parent(codes[i], level);
    assert(down[i] / 8 == v);
    assert(down.contains(down[i]));
    assert(next.contains(down[i]));
    let m = choose|m: int| 0 <= m < next.len() && next[m] == down[i];
    parts_in_positive(next, v, m, next.len() as int);
}

proof fn parts_in_positive(next: Seq<int>, v: int, i: int, m: int)
    requires
        0 <= i < m <= next.len(),
        next[i] / 8 == v,
    ensures
        parts_in(next, v, m) >= 1,
    decreases m,
{
    if i < m - 1 {
        parts_in_positive(next, v, i, m - 1);
    }
}

fn count_level(next: &Vec<u32>, level: usize, Ghost(c): Ghost<Seq<int>>) -> (counts: Vec<usize>)
    requires
        level <= 7,
        ints(next@) == cells(c, level + 1),
        forall|i: int| #![trigger c[i]] 0 <= i < c.len() ==> 0 <= c[i] < pow8(8),
    ensures
        counts@.len() == pow8(level as int),
        forall|v: int|
            #![trigger counts@[v]]
            0 <= v < counts@.len() ==> counts@[v] == parts_in(
                cells(c, level + 1),
                v,
                cells(c, level + 1).len() as int,
            ),
{
    let bound = cells_per_level(level);
    proof {
        let down = Seq::new(c.len(), |i: int| cell_of(c[i], level + 1));
        distinct_lists(down);
        assert forall|i: int| #![trigger next@[i]] 0 <= i < next@.len() implies next@[i] / 8
            < bound by {
            assert(ints(next@)[i] == next@[i]);
            assert(distinct(down).contains(ints(next@)[i]));
            let q = choose|q: int| 0 <= q < down.len() && down[q] == next@[i];
            assert(0 <= c[q] < pow8(8));
            cell_in_range(c[q], level + 1);
            assert(pow8(level + 1) == 8 * pow8(level as int));
        }
        assert(ints(next@).len() == next@.len());
    }
    count_parts(next, bound)
}

/// Appends cells of one level.
fn append_cells(list: &mut Vec<(usize, u32)>, level: usize, add: &[u32])
    requires
        level <= 8,
    ensures
        pairs(final(list)@) == pairs(old(list)@) + at_level(level as int, ints(add@)),
        forall|i: int|
            #![trigger final(list)@[i]]
            0 <= i < final(list)@.len() ==> if i < old(list)@.len() {
                final(list)@[i] == old(list)@[i]
            } else {
                final(list)@[i].0 == level && final(list)@[i].1 == add@[i - old(list)@.len()]
            },
        final(list)@.len() == old(list)@.len() + add@.len(),
{
    let ghost start = list@;
    let mut i: usize = 0;
    while i < add.len()
        invariant
            i <= add@.len(),
            list@.len() == start.len() + i,
            forall|q: int| #![trigger list@[q]] 0 <= q < start.len() ==> list@[q] == start[q],
            forall|q: int|
                #![trigger list@[q]]
                start.len() <= q < list@.len() ==> list@[q].0 == level && list@[q].1 == add@[q
                    - start.len()],
        decreases add@.len() - i,
    {
        list.push((level, add[i]));
        i += 1;
    }
    assert(pairs(list@) =~= pairs(start) + at_level(level as int, ints(add@)));
}

/// The cells as pairs of integers.
spec fn pairs(s: Seq<(usize, u32)>) -> Seq<(int, int)> {
    Seq::new(s.len(), |i: int| (s[i].0 as int, s[i].1 as int))
}

/// Every cell lies within its level.
spec fn pairs_wf(s: Seq<(usize, u32)>) -> bool {
    forall|i: int|
        #![trigger s[i]]
        0 <= i < s.len() ==> s[i].0 <= 8 && s[i].1 < pow8(s[i].0 as int)
}

/// Quantises path codes to at most `k` leaves.
pub fn quantize(codes: &[u32], k: usize) -> (out: Vec<OctreeLeaf>)
    requires
        codes_wf(codes@),
        codes@.len() > 0,
        k >= 1,
    ensures
        is_quantised(ints(codes@), k as int, out@),
        out@.len() == if cells(ints(codes@), 8).len() <= k {
            cells(ints(codes@), 8).len() as int
        } else {
            k as int
        },
{
    let ghost c = ints(codes@);
    proof {
        pow8_values();
        assert forall|i: int| #![trigger c[i]] 0 <= i < c.len() implies 0 <= c[i] < pow8(8) by {
            assert(codes@[i] < 0x100_0000);
        }
        leaves_counted(c, k as int);
        levels_nest(c, 7);
        merging_reaches_target(c, k as int, 7, cells(c, 7).len() as int);
    }
    let s = find_stop(codes, k);
    let ghost stop = (s.level as int, s.kept_apart as int, s.need as int);
    let ghost here = cells(c, s.level as int);
    let ghost next = cells(c, s.level + 1);
    proof {
        assert(s.here@.len() == ints(s.here@).len());
        distinct_lists(Seq::new(c.len(), |i: int| cell_of(c[i], s.level + 1)));
    }
    let mut list: Vec<(usize, u32)> = Vec::new();
    let mut i: usize = s.kept_apart;
    while i < s.here.len()
        invariant
            s.kept_apart <= i <= s.here@.len(),
            s.level <= 7,
            ints(s.here@) == here,
            forall|i: int|
                #![trigger s.here@[i]]
                0 <= i < s.here@.len() ==> s.here@[i] < pow8(s.level as int),
            list@.len() == i - s.kept_apart,
            forall|q: int|
                #![trigger list@[q]]
                0 <= q < list@.len() ==> list@[q].0 == s.level && list@[q].1 == s.here@[s.kept_apart
                    + q],
            pairs_wf(list@),
        decreases s.here@.len() - i,
    {
        list.push((s.level, s.here[i]));
        i += 1;
    }
    proof {
        assert(pairs(list@) =~= at_level(s.level as int, here.skip(s.kept_apart as int)));
    }
    let ghost merged = pairs(list@);
    let upto: usize = if s.need > 0 {
        s.kept_apart - 1
    } else {
        s.kept_apart
    };
    let mut j: usize = 0;
    proof {
        assert(merged + parts_of(here, next, s.level as int, 0) =~= merged);
    }
    while j < upto
        invariant
            j <= upto,
            upto <= s.here@.len(),
            s.level <= 7,
            ints(s.here@) == here,
            forall|i: int|
                #![trigger s.here@[i]]
                0 <= i < s.here@.len() ==> s.here@[i] < pow8(s.level as int),
            s.next@.len() == pow8(s.level + 1),
            forall|v: int|
                #![trigger s.next@[v]]
                0 <= v < s.next@.len() ==> s.next@[v] == next.contains(v),
            pairs(list@) == merged + parts_of(here, next, s.level as int, j as int),
            pairs_wf(list@),
        decreases upto - j,
    {
        let v = s.here[j];
        proof {
            assert(ints(s.here@)[j as int] == v);
            assert(v < pow8(s.level as int));
            assert(pow8(s.level + 1) == 8 * pow8(s.level as int));
            pow8_monotone(s.level + 1);
        }
        let parts = list_kids(&s.next, v, Ghost(next));
        let ghost before = list@;
        append_cells(&mut list, s.level + 1, &parts);
        proof {
            assert(pairs(list@) =~= merged + parts_of(here, next, s.level as int, j + 1));
        }
        j += 1;
    }
    if s.need > 0 {
        let v = s.here[upto];
        proof {
            assert(ints(s.here@)[upto as int] == v);
            assert(v < pow8(s.level as int));
            assert(pow8(s.level + 1) == 8 * pow8(s.level as int));
            pow8_monotone(s.level + 1);
            kids_counted(next, v as int);
        }
        let rest = keep_largest(codes, s.level + 1, &s.next, v, s.need, Ghost(next));
        append_cells(&mut list, s.level + 1, &rest);
    }
    proof {
        assert(pairs(list@) =~= leaf_list(c, stop));
    }
    order_leaves(codes, &list)
}

proof fn pow8_monotone(level: int)
    requires
        0 <= level <= 8,
    ensures
        pow8(level) <= 0x100_0000,
{
    pow8_values();
    assert(level == 0 || level == 1 || level == 2 || level == 3 || level == 4 || level == 5 || level
        == 6 || level == 7 || level == 8);
}

/// The leaves from the highest path down, with their pixels.
fn order_leaves(codes: &[u32], list: &Vec<(usize, u32)>) -> (out: Vec<OctreeLeaf>)
    requires
        codes_wf(codes@),
        pairs_wf(list@),
    ensures
        out@.len() == list@.len(),
        forall|t: int|
            #![trigger out@[t]]
            0 <= t < out@.len() ==> leaf_is(
                ints(codes@),
                out@[t],
                pairs(list@)[key_order(path_keys(pairs(list@)))[t] as int],
            ),
{
    let mut keys: Vec<u64> = Vec::new();
    let mut i: usize = 0;
    let ghost goal = path_keys(pairs(list@));
    while i < list.len()
        invariant
            i <= list@.len(),
            pairs_wf(list@),
            goal == path_keys(pairs(list@)),
            keys@.len() == i,
            forall|q: int| #![trigger keys@[q]] 0 <= q < i ==> keys@[q] == goal[q],
        decreases list@.len() - i,
    {
        let (level, cell) = list[i];
        proof {
            assert(list@[i as int].0 <= 8 && list@[i as int].1 < pow8(list@[i as int].0 as int));
            pow8_values();
            path_key_bound(level as int, cell as int);
        }
        let width = cells_per_level(8 - level) as u64;
        let key: u64 = 0x100_0000 - cell as u64 * width;
        keys.push(key);
        i += 1;
    }
    assert(keys@ =~= goal);
    let order = stable_order(&keys);
    let mut out: Vec<OctreeLeaf> = Vec::new();
    let mut t: usize = 0;
    while t < order.len()
        invariant
            t <= order@.len(),
            codes_wf(codes@),
            pairs_wf(list@),
            is_permutation(order@, list@.len() as int),
            out@.len() == t,
            forall|q: int|
                #![trigger out@[q]]
                0 <= q < t ==> leaf_is(ints(codes@), out@[q], pairs(list@)[order@[q] as int]),
        decreases order@.len() - t,
    {
        let (level, cell) = list[order[t]];
        assert(list@[order@[t as int] as int].0 <= 8);
        let pixels = list_pixels(codes, level, cell);
        out.push(OctreeLeaf { level, cell, pixels });
        t += 1;
    }
    out
}

proof fn path_key_bound(level: int, cell: int)
    requires
        0 <= level <= 8,
        0 <= cell < pow8(level),
    ensures
        0 <= cell * pow8(8 - level) < pow8(8),
{
    pow8_values();
    let p = pow8(8 - level);
    let q = pow8(level);
    assert(p * q == pow8(8)) by {
        assert(level == 0 || level == 1 || level == 2 || level == 3 || level == 4 || level == 5
            || level == 6 || level == 7 || level == 8);
    }
    pow8_positive(8 - level);
    assert(0 <= cell * p < p * q) by (nonlinear_arith)
        requires
            0 <= cell < q,
            p >= 1,
    ;
}

/// The first of the first `k` leaves with the most pixels.
pub open spec fn fullest(leaves: Seq<OctreeLeaf>, k: int) -> int
    decreases k,
{
    if k <= 1 {
        0
    } else {
        let before = fullest(leaves, k - 1);
        if leaves[k - 1].pixels@.len() > leaves[before].pixels@.len() {
            k - 1
        } else {
            before
        }
    }
}

/// Where a cell loses parts, the smallest go: no part that is lost holds more
/// pixels than one that is kept.
pub proof fn smallest_parts_go(
    codes: Seq<int>,
    level: int,
    next: Seq<int>,
    v: int,
    need: int,
    lost: int,
    i: int,
)
    requires
        codes.len() <= usize::MAX,
        0 <= need <= kids(next, v, 8).len(),
        0 <= i < kept(codes, level, next, v, need).len(),
        kids(next, v, 8).contains(lost),
        !kept(codes, level, next, v, need).contains(lost),
    ensures
        kids(next, v, 8).contains(kept(codes, level, next, v, need)[i]),
        population(codes, level, lost, codes.len() as int) <= population(
            codes,
            level,
            kept(codes, level, next, v, need)[i],
            codes.len() as int,
        ),
{
    let all = kids(next, v, 8);
    let keys = sizes(codes, level, all);
    kids_short(next, v, 8);
    crate::order::key_order_exists(keys);
    let order = key_order(keys);
    let m = choose|m: int| 0 <= m < all.len() && all[m] == lost;
    crate::order::permutation_reaches(order, keys.len() as int, m);
    let at = choose|at: int| 0 <= at < order.len() && order[at] == m;
    let rest = kept(codes, level, next, v, need);
    if at >= need {
        assert(rest[at - need] == lost);
    }
    assert(rest[i] == all[order[need + i] as int]);
    assert(crate::order::precedes(keys, order[at] as int, order[need + i] as int));
    population_fits(codes, level, lost, codes.len() as int);
    population_fits(codes, level, rest[i], codes.len() as int);
}

proof fn population_fits(codes: Seq<int>, level: int, v: int, n: int)
    requires
        0 <= n,
    ensures
        population(codes, level, v, n) <= n,
    decreases n,
{
    if n > 0 {
        population_fits(codes, level, v, n - 1);
    }
}

/// A leaf lists exactly the pixels whose path starts as its cell does.
pub proof fn leaf_holds_its_cell(codes: Seq<int>, level: int, v: int, n: int, p: int)
    requires
        0 <= p < n <= codes.len(),
        codes.len() <= usize::MAX,
    ensures
        inhabitants(codes, level, v, n).contains(p as usize) <==> codes[p] / pow8(8 - level) == v,
    decreases n,
{
    let now = inhabitants(codes, level, v, n);
    let before = inhabitants(codes, level, v, n - 1);
    inhabitants_within(codes, level, v, n - 1);
    if p < n - 1 {
        leaf_holds_its_cell(codes, level, v, n - 1, p);
        if before.contains(p as usize) {
            let m = choose|m: int| 0 <= m < before.len() && before[m] == p as usize;
            assert(now[m] == p as usize);
        }
        if now.contains(p as usize) {
            let m = choose|m: int| 0 <= m < now.len() && now[m] == p as usize;
            assert(m < before.len() ==> before[m] == p as usize);
        }
    } else {
        if cell_of(codes[p], level) == v {
            assert(now[before.len() as int] == p as usize);
        }
        if before.contains(p as usize) {
            let m = choose|m: int| 0 <= m < before.len() && before[m] == p as usize;
            assert(before[m] < n - 1);
        }
    }
}

proof fn inhabitants_within(codes: Seq<int>, level: int, v: int, n: int)
    requires
        0 <= n <= codes.len(),
        codes.len() <= usize::MAX,
    ensures
        forall|m: int|
            #![trigger inhabitants(codes, level, v, n)[m]]
            0 <= m < inhabitants(codes, level, v, n).len() ==> inhabitants(codes, level, v, n)[m]
                < n,
    decreases n,
{
    if n > 0 {
        inhabitants_within(codes, level, v, n - 1);
        let before = inhabitants(codes, level, v, n - 1);
        let now = inhabitants(codes, level, v, n);
        assert forall|m: int| #![trigger now[m]] 0 <= m < now.len() implies now[m] < n by {
            if m < before.len() {
                assert(now[m] == before[m]);
            }
        }
    }
}

proof fn parts_lie_below(here: Seq<int>, next: Seq<int>, level: int, j: int)
    ensures
        forall|t: int|
            #![trigger parts_of(here, next, level, j)[t]]
            0 <= t < parts_of(here, next, level, j).len() ==> parts_of(here, next, level, j)[t].0
                == level + 1,
    decreases j,
{
    if j > 0 {
        parts_lie_below(here, next, level, j - 1);
        let before = parts_of(here, next, level, j - 1);
        let now = parts_of(here, next, level, j);
        assert forall|t: int| #![trigger now[t]] 0 <= t < now.len() implies now[t].0 == level
            + 1 by {
            if t < before.len() {
                assert(now[t] == before[t]);
            }
        }
    }
}

/// Merging goes from the finest level up: all leaves lie on two levels, one above
/// the other.
pub proof fn leaves_lie_on_two_levels(
    codes: Seq<int>,
    k: int,
    out: Seq<OctreeLeaf>,
    s: int,
    t: int,
)
    requires
        is_quantised(codes, k, out),
        out.len() <= usize::MAX,
        0 <= s < out.len(),
        0 <= t < out.len(),
    ensures
        out[s].level <= out[t].level + 1,
{
    let stop = stop_at(codes, k, 7, cells(codes, 7).len() as int);
    let list = leaf_list(codes, stop);
    let (level, j, need) = stop;
    let here = cells(codes, level);
    let next = cells(codes, level + 1);
    crate::order::key_order_exists(path_keys(list));
    let order = key_order(path_keys(list));
    parts_lie_below(here, next, level, j);
    parts_lie_below(here, next, level, j - 1);
    assert(leaf_is(codes, out[s], list[order[s] as int]));
    assert(leaf_is(codes, out[t], list[order[t] as int]));
    assert forall|m: int| #![trigger list[m]] 0 <= m < list.len() implies list[m].0 == level
        || list[m].0 == level + 1 by {
        let merged = at_level(level, here.skip(j));
        if m < merged.len() {
            assert(list[m] == merged[m]);
        } else if need > 0 {
            let parts = parts_of(here, next, level, j - 1);
            if m < merged.len() + parts.len() {
                assert(list[m] == parts[m - merged.len()]);
            }
        } else {
            let parts = parts_of(here, next, level, j);
            assert(list[m] == parts[m - merged.len()]);
        }
    }
    assert(list[order[s] as int].0 == level || list[order[s] as int].0 == level + 1);
    assert(list[order[t] as int].0 == level || list[order[t] as int].0 == level + 1);
}

/// Where there are no more finest cells than leaves wanted, nothing is merged:
/// every leaf is a finest cell.
pub proof fn few_colors_are_kept(codes: Seq<int>, k: int, out: Seq<OctreeLeaf>, t: int)
    requires
        forall|i: int| #![trigger codes[i]] 0 <= i < codes.len() ==> 0 <= codes[i] < pow8(8),
        codes.len() > 0,
        is_quantised(codes, k, out),
        out.len() <= usize::MAX,
        cells(codes, 8).len() <= k,
        0 <= t < out.len(),
    ensures
        out[t].level == 8,
        forall|i: int|
            #![trigger codes[i]]
            0 <= i < codes.len() && codes.len() <= usize::MAX ==> (out[t].pixels@.contains(
                i as usize,
            ) <==> codes[i] == out[t].cell),
{
    let start = cells(codes, 7).len() as int;
    levels_nest(codes, 7);
    let stop = stop_at(codes, k, 7, start);
    assert(stop == (7int, start, 0int));
    let list = leaf_list(codes, stop);
    let here = cells(codes, 7);
    let next = cells(codes, 8);
    crate::order::key_order_exists(path_keys(list));
    let order = key_order(path_keys(list));
    parts_lie_below(here, next, 7, start);
    assert(at_level(7, here.skip(start)) =~= seq![]);
    assert(list =~= parts_of(here, next, 7, start));
    assert(leaf_is(codes, out[t], list[order[t] as int]));
    assert(list[order[t] as int].0 == 8);
    assert forall|i: int|
        #![trigger codes[i]]
        0 <= i < codes.len() && codes.len() <= usize::MAX implies (out[t].pixels@.contains(
        i as usize,
    ) <==> codes[i] == out[t].cell) by {
        leaf_holds_its_cell(codes, 8, out[t].cell as int, codes.len() as int, i);
        assert(pow8(0) == 1);
    }
}

/// Leaves are listed from the highest path down.
pub proof fn leaves_go_down(codes: Seq<int>, k: int, out: Seq<OctreeLeaf>, s: int, t: int)
    requires
        is_quantised(codes, k, out),
        out.len() <= usize::MAX,
        0 <= s < t < out.len(),
        forall|m: int|
            #![trigger out[m]]
            0 <= m < out.len() ==> out[m].cell * pow8(8 - out[m].level) <= pow8(8),
    ensures
        out[s].cell * pow8(8 - out[s].level) >= out[t].cell * pow8(8 - out[t].level),
{
    let stop = stop_at(codes, k, 7, cells(codes, 7).len() as int);
    let list = leaf_list(codes, stop);
    let keys = path_keys(list);
    crate::order::key_order_exists(keys);
    let order = key_order(keys);
    assert(leaf_is(codes, out[s], list[order[s] as int]));
    assert(leaf_is(codes, out[t], list[order[t] as int]));
    assert(crate::order::precedes(keys, order[s] as int, order[t] as int));
    pow8_values();
    let a = out[s].cell * pow8(8 - out[s].level);
    let b = out[t].cell * pow8(8 - out[t].level);
    pow8_positive(8 - out[s].level);
    pow8_positive(8 - out[t].level);
    assert(a >= 0 && b >= 0) by (nonlinear_arith)
        requires
            a == out[s].cell * pow8(8 - out[s].level),
            b == out[t].cell * pow8(8 - out[t].level),
            pow8(8 - out[s].level) >= 1,
            pow8(8 - out[t].level) >= 1,
    ;
    assert(keys[order[s] as int] == (pow8(8) - a) as u64);
    assert(keys[order[t] as int] == (pow8(8) - b) as u64);
}

/// Cells are merged from the last one seen: where a cell of the level that merging
/// stopped at has become one leaf, so have all that were first seen after it.
pub proof fn later_cells_merge_first(
    codes: Seq<int>,
    k: int,
    out: Seq<OctreeLeaf>,
    t: int,
    a: int,
    b: int,
) -> (u: int)
    requires
        forall|i: int| #![trigger codes[i]] 0 <= i < codes.len() ==> 0 <= codes[i] < pow8(8),
        codes.len() > 0,
        k >= 1,
        is_quantised(codes, k, out),
        out.len() <= usize::MAX,
        0 <= t < out.len(),
        0 <= a < b < cells(codes, out[t].level as int).len(),
        out[t].cell == cells(codes, out[t].level as int)[a],
        forall|m: int| #![trigger out[m]] 0 <= m < out.len() ==> out[t].level <= out[m].level,
        exists|m: int| #![trigger out[m]] 0 <= m < out.len() && out[m].level > out[t].level,
    ensures
        0 <= u < out.len(),
        out[u].level == out[t].level,
        out[u].cell == cells(codes, out[t].level as int)[b],
{
    let stop = stop_at(codes, k, 7, cells(codes, 7).len() as int);
    merging_reaches_target(codes, k, 7, cells(codes, 7).len() as int);
    let (level, j, need) = stop;
    let list = leaf_list(codes, stop);
    let keys = path_keys(list);
    crate::order::key_order_exists(keys);
    let order = key_order(keys);
    let here = cells(codes, level);
    let next = cells(codes, level + 1);
    let merged = at_level(level, here.skip(j));
    parts_lie_below(here, next, level, j);
    parts_lie_below(here, next, level, j - 1);
    let m = choose|m: int| #![trigger out[m]] 0 <= m < out.len() && out[m].level > out[t].level;
    assert(leaf_is(codes, out[m], list[order[m] as int]));
    assert(leaf_is(codes, out[t], list[order[t] as int]));
    assert forall|i: int| #![trigger list[i]] 0 <= i < list.len() implies if i < merged.len() {
        list[i] == merged[i] && list[i].0 == level
    } else {
        list[i].0 == level + 1
    } by {
        if i >= merged.len() {
            if need > 0 {
                let parts = parts_of(here, next, level, j - 1);
                if i < merged.len() + parts.len() {
                    assert(list[i] == parts[i - merged.len()]);
                }
            } else {
                let parts = parts_of(here, next, level, j);
                assert(list[i] == parts[i - merged.len()]);
            }
        }
    }
    assert(list[order[t] as int].0 == level || list[order[t] as int].0 == level + 1);
    assert(list[order[m] as int].0 == level || list[order[m] as int].0 == level + 1);
    assert(out[t].level == level);
    let p = order[t] as int;
    assert(p < merged.len());
    assert(merged[p] == (level, here[j + p]));
    distinct_lists(Seq::new(codes.len(), |i: int| cell_of(codes[i], level)));
    assert(here[j + p] == here[a]);
    assert(j + p == a);
    let q = p + (b - a);
    assert(merged[q] == (level, here[b]));
    assert(list[q] == merged[q]);
    crate::order::permutation_reaches(order, keys.len() as int, q);
    let u = choose|u: int| 0 <= u < order.len() && order[u] == q;
    assert(leaf_is(codes, out[u], list[order[u] as int]));
    u
}

/// No leaf holds more pixels than the fullest, and every earlier one holds fewer.
pub proof fn fullest_holds_most(leaves: Seq<OctreeLeaf>, k: int, i: int)
    requires
        0 <= i < k <= leaves.len(),
    ensures
        0 <= fullest(leaves, k) < k,
        leaves[i].pixels@.len() <= leaves[fullest(leaves, k)].pixels@.len(),
        i < fullest(leaves, k) ==> leaves[i].pixels@.len() < leaves[fullest(
            leaves,
            k,
        )].pixels@.len(),
    decreases k,
{
    if k > 1 {
        if i < k - 1 {
            fullest_holds_most(leaves, k - 1, i);
        } else {
            fullest_holds_most(leaves, k - 1, 0);
        }
    }
}

/// A path code lists its octants: its first `level` octants make up its cell.
pub proof fn cell_is_path_prefix(octants: Seq<usize>, k: int, level: int)
    requires
        0 <= level <= k <= octants.len(),
        forall|i: int| #![trigger octants[i]] 0 <= i < octants.len() ==> octants[i] < 8,
    ensures
        digits(octants, k) / pow8(k - level) == digits(octants, level),
        0 <= digits(octants, k) < pow8(k),
    decreases k,
{
    pow8_positive(k - level);
    if level < k {
        cell_is_path_prefix(octants, k - 1, level);
        assert(octants[k - 1] < 8);
        let d = digits(octants, k - 1);
        let p = pow8(k - 1 - level);
        pow8_positive(k - 1 - level);
        assert(digits(octants, k) / 8 == d);
        vstd::arithmetic::div_mod::lemma_div_denominator(digits(octants, k), 8, p);
        assert(8 * p == pow8(k - level));
    } else {
        if k > 0 {
            cell_is_path_prefix(octants, k - 1, k - 1);
            assert(octants[k - 1] < 8);
        }
        assert(pow8(0) == 1);
    }
}

/// Two paths lie in one cell at a level exactly when their first octants agree.
pub proof fn cells_tell_paths(a: Seq<usize>, b: Seq<usize>, level: int)
    requires
        0 <= level <= a.len(),
        level <= b.len(),
        forall|i: int| #![trigger a[i]] 0 <= i < a.len() ==> a[i] < 8,
        forall|i: int| #![trigger b[i]] 0 <= i < b.len() ==> b[i] < 8,
    ensures
        digits(a, level) == digits(b, level) <==> forall|i: int|
            #![trigger a[i], b[i]]
            0 <= i < level ==> a[i] == b[i],
    decreases level,
{
    if level > 0 {
        cells_tell_paths(a, b, level - 1);
        assert(a[level - 1] < 8 && b[level - 1] < 8);
        cell_is_path_prefix(a, level - 1, level - 1);
        cell_is_path_prefix(b, level - 1, level - 1);
        if digits(a, level) == digits(b, level) {
            assert(a[level - 1] == b[level - 1]);
        }
    }
}

/// The leaf of the dominant colour: the first with the most pixels.
pub fn dominant_leaf(leaves: &[OctreeLeaf]) -> (i: usize)
    requires
        leaves@.len() > 0,
    ensures
        i == fullest(leaves@, leaves@.len() as int),
        i < leaves@.len(),
{
    let mut best: usize = 0;
    let mut t: usize = 1;
    while t < leaves.len()
        invariant
            1 <= t <= leaves@.len(),
            best == fullest(leaves@, t as int),
            best < t,
        decreases leaves@.len() - t,
    {
        if leaves[t].pixels.len() > leaves[best].pixels.len() {
            best = t;
        }
        t += 1;
    }
    best
}

} // verus!
