//! Square blocks of pixels round a pixel, for local transforms.

use vstd::prelude::*;
use crate::dims::block_position;
use crate::region::{pixel_in_frame, pixel_inside};
use crate::scalar::Scalar;

verus! {

/// Coordinate `x + d - 4`, held to `0..n`.
pub open spec fn held(x: int, d: int, n: int) -> int {
    let p = x + d - 4;
    if p < 0 {
        0
    } else if p >= n {
        n - 1
    } else {
        p
    }
}

/// The pixel at place `k` of the block round pixel `i`: rows of eight, from four
/// left and above; what would lie outside the image is taken from its edge.
pub open spec fn block_pixel(w: u32, h: u32, i: int, k: int) -> int {
    let x = i % (w as int);
    let y = i / (w as int);
    held(y, k / 8, h as int) * w + held(x, k % 8, w as int)
}

/// The block round pixel `i`.
pub open spec fn block_of(w: u32, h: u32, i: int) -> Seq<usize> {
    Seq::new(64, |k: int| block_pixel(w, h, i, k) as usize)
}

/// Away from the edge, the block of a pixel is the square of eight by eight pixels
/// around it, row by row, with four pixels before it and three behind.
pub proof fn blocks_are_squares(w: u32, h: u32, x: int, y: int, dx: int, dy: int)
    requires
        4 <= x,
        x + 4 <= w,
        4 <= y,
        y + 4 <= h,
        0 <= dx < 8,
        0 <= dy < 8,
    ensures
        block_pixel(w, h, y * w + x, 8 * dy + dx) == (y + dy - 4) * w + (x + dx - 4),
{
    crate::region::pixel_at(w as int, x, y);
    assert((8 * dy + dx) / 8 == dy);
    assert((8 * dy + dx) % 8 == dx);
}

/// Near the edge, rows and columns beyond it repeat those at the edge.
pub proof fn blocks_repeat_the_edge(x: int, d: int, n: int)
    requires
        0 <= x < n,
        0 <= d < 8,
    ensures
        0 <= held(x, d, n) < n,
        x + d < 4 ==> held(x, d, n) == 0,
        x + d - 4 >= n ==> held(x, d, n) == n - 1,
        4 <= x + d && x + d - 4 < n ==> held(x, d, n) == x + d - 4,
{
}

/// Lists the pixels of the block round a pixel.
pub fn block_pixels(w: u32, h: u32, i: usize) -> (block: Vec<usize>)
    requires
        w * h <= u32::MAX,
        i < w * h,
    ensures
        block@ == block_of(w, h, i as int),
        forall|k: int| #![trigger block@[k]] 0 <= k < block@.len() ==> block@[k] < w * h,
{
    let ghost n = w * h;
    proof {
        pixel_in_frame(w, h, n, i as int);
    }
    let wu = w as usize;
    let hu = h as usize;
    let x = i % wu;
    let y = i / wu;
    let mut block: Vec<usize> = Vec::new();
    let mut k: usize = 0;
    while k < 64
        invariant
            k <= 64,
            n == w * h,
            n <= u32::MAX,
            wu == w,
            hu == h,
            x == i as int % w as int,
            y == i as int / w as int,
            x < wu,
            y < hu,
            block@.len() == k,
            forall|m: int|
                #![trigger block@[m]]
                0 <= m < k ==> block@[m] == block_pixel(w, h, i as int, m) && block@[m] < n,
        decreases 64 - k,
    {
        let px = block_position(x, k % 8, wu);
        let py = block_position(y, k / 8, hu);
        proof {
            pixel_inside(w, h, n, px as int, py as int);
            assert(px == held(x as int, k as int % 8, w as int));
            assert(py == held(y as int, k as int / 8, h as int));
            assert(0 <= py * w <= py * w + px);
        }
        block.push((py as u64 * w as u64 + px as u64) as usize);
        k += 1;
    }
    assert(block@ =~= block_of(w, h, i as int));
    block
}

/// A pixel is at the centre of its own block.
pub proof fn block_holds_pixel(w: u32, h: u32, i: int)
    requires
        w * h <= u32::MAX,
        0 <= i < w * h,
    ensures
        block_of(w, h, i)[36] == i,
{
    pixel_in_frame(w, h, w * h, i);
    let x = i % (w as int);
    let y = i / (w as int);
    assert(held(x, 4, w as int) == x);
    assert(held(y, 4, h as int) == y);
    vstd::arithmetic::div_mod::lemma_fundamental_div_mod(i, w as int);
    assert((w as int) * y == y * w) by (nonlinear_arith);
    assert(36int / 8 == 4 && 36int % 8 == 4);
}

/// `map` holds what `texture` makes of the block round every pixel.
pub open spec fn textured<T: Fn(&Vec<usize>) -> Scalar>(
    texture: T,
    w: u32,
    h: u32,
    map: Seq<Scalar>,
) -> bool {
    &&& map.len() == w * h
    &&& forall|i: int|
        #![trigger map[i]]
        0 <= i < map.len() ==> block_textured(texture, w, h, i, map[i])
}

/// `v` is what `texture` makes of the block round pixel `i`.
pub open spec fn block_textured<T: Fn(&Vec<usize>) -> Scalar>(
    texture: T,
    w: u32,
    h: u32,
    i: int,
    v: Scalar,
) -> bool {
    exists|block: Vec<usize>|
        block@ == block_of(w, h, i) && #[trigger] call_ensures(texture, (&block,), v)
}

/// `texture` takes every block of an image of `n` pixels.
pub open spec fn takes_blocks<T: Fn(&Vec<usize>) -> Scalar>(texture: T, n: int) -> bool {
    forall|b: &Vec<usize>|
        b@.len() == 64 && within(b@, n) ==> #[trigger] call_requires(texture, (b,))
}

/// All pixels are among the first `n`.
pub open spec fn within(block: Seq<usize>, n: int) -> bool {
    forall|k: int| #![trigger block[k]] 0 <= k < block.len() ==> block[k] < n
}

/// Computes the texture of the block round every pixel.
pub fn compute_complexity_map<T: Fn(&Vec<usize>) -> Scalar>(w: u32, h: u32, texture: &T) -> (map: Vec<
    Scalar,
>)
    requires
        w * h <= u32::MAX,
        takes_blocks(*texture, w * h),
    ensures
        textured(*texture, w, h, map@),
{
    let n = (w as u64 * h as u64) as usize;
    let mut map: Vec<Scalar> = Vec::new();
    let mut i: usize = 0;
    while i < n
        invariant
            i <= n,
            n == w * h,
            n <= u32::MAX,
            takes_blocks(*texture, w * h),
            map@.len() == i,
            forall|k: int|
                #![trigger map@[k]]
                0 <= k < i ==> block_textured(*texture, w, h, k, map@[k]),
        decreases n - i,
    {
        let block = block_pixels(w, h, i);
        assert(within(block@, w * h));
        assert(call_requires(*texture, (&block,)));
        let v = texture(&block);
        assert(call_ensures(*texture, (&block,), v));
        assert(block_textured(*texture, w, h, i as int, v));
        map.push(v);
        i += 1;
    }
    map
}

/// The matrix of eight by eight values with rows and columns exchanged.
pub open spec fn transposed(m: Seq<Scalar>) -> Seq<Scalar> {
    Seq::new(64, |k: int| m[(k % 8) * 8 + k / 8])
}

/// Exchanges the rows and columns of a matrix of eight by eight values.
pub fn transpose(m: &[Scalar]) -> (out: Vec<Scalar>)
    requires
        m@.len() == 64,
    ensures
        out@ == transposed(m@),
{
    let mut out: Vec<Scalar> = Vec::new();
    let mut k: usize = 0;
    while k < 64
        invariant
            k <= 64,
            m@.len() == 64,
            out@.len() == k,
            forall|i: int| #![trigger out@[i]] 0 <= i < k ==> out@[i] == transposed(m@)[i],
        decreases 64 - k,
    {
        out.push(m[(k % 8) * 8 + k / 8]);
        k += 1;
    }
    assert(out@ =~= transposed(m@));
    out
}

/// Exchanging rows and columns twice gives the matrix back.
pub proof fn transposed_twice(m: Seq<Scalar>)
    requires
        m.len() == 64,
    ensures
        transposed(transposed(m)) == m,
{
    assert forall|k: int| 0 <= k < 64 implies transposed(transposed(m))[k] == m[k] by {
        let j = (k % 8) * 8 + k / 8;
        assert(0 <= j < 64);
        assert(j % 8 == k / 8 && j / 8 == k % 8);
    }
    assert(transposed(transposed(m)) =~= m);
}

/// The texture of a pixel away from the edge is made of the square of eight by
/// eight pixels around it.
pub proof fn textures_see_their_squares<T: Fn(&Vec<usize>) -> Scalar>(
    texture: T,
    w: u32,
    h: u32,
    map: Seq<Scalar>,
    x: int,
    y: int,
    dx: int,
    dy: int,
) -> (block: Vec<usize>)
    requires
        textured(texture, w, h, map),
        w * h <= usize::MAX,
        4 <= x,
        x + 4 <= w,
        4 <= y,
        y + 4 <= h,
        0 <= dx < 8,
        0 <= dy < 8,
    ensures
        map.len() == w * h,
        call_ensures(texture, (&block,), map[y * w + x]),
        block@.len() == 64,
        block@[8 * dy + dx] == (y + dy - 4) * w + (x + dx - 4),
{
    let i = y * w + x;
    assert(0 <= i < w * h) by (nonlinear_arith)
        requires
            i == y * w + x,
            0 <= x < w,
            0 <= y < h,
    ;
    let far = (y + dy - 4) * w + (x + dx - 4);
    assert(0 <= far < w * h) by (nonlinear_arith)
        requires
            far == (y + dy - 4) * w + (x + dx - 4),
            0 <= x + dx - 4 < w,
            0 <= y + dy - 4 < h,
    ;
    assert(block_textured(texture, w, h, i, map[i]));
    let v = map[i];
    let block = choose|block: Vec<usize>|
        block@ == block_of(w, h, i) && #[trigger] call_ensures(texture, (&block,), v);
    blocks_are_squares(w, h, x, y, dx, dy);
    block
}

} // verus!
