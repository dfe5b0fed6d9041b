//! Edge maps: where the strength comes from a gradient, and where it is given.

use vstd::prelude::*;
use crate::region::{frame, pixel_in_frame};
use crate::scalar::{all_unit, clamp_unit, in_unit, unit, Scalar, ONE_BITS};

verus! {

/// Pixel `i` has all eight neighbours.
pub open spec fn interior(w: u32, h: u32, i: int) -> bool {
    let x = i % (w as int);
    let y = i / (w as int);
    0 < x && x + 1 < w && 0 < y && y + 1 < h
}

fn is_interior(w: u32, h: u32, i: usize, Ghost(n): Ghost<int>) -> (r: bool)
    requires
        frame(w, h, n),
        i < n,
    ensures
        r == interior(w, h, i as int),
{
    proof {
        pixel_in_frame(w, h, n, i as int);
    }
    let x = (i % (w as usize)) as u64;
    let y = (i / (w as usize)) as u64;
    0 < x && x + 1 < w as u64 && 0 < y && y + 1 < h as u64
}

/// The eight neighbours of a pixel, by their direction.
#[derive(Clone, Copy, Debug)]
pub struct Around<L> {
    pub nw: L,
    pub n: L,
    pub ne: L,
    pub w: L,
    pub e: L,
    pub sw: L,
    pub s: L,
    pub se: L,
}

/// The neighbours of interior pixel `i` in an image of width `w`.
pub open spec fn around<L>(colors: Seq<L>, w: u32, i: int) -> Around<L> {
    Around {
        nw: colors[i - w - 1],
        n: colors[i - w],
        ne: colors[i - w + 1],
        w: colors[i - 1],
        e: colors[i + 1],
        sw: colors[i + w - 1],
        s: colors[i + w],
        se: colors[i + w + 1],
    }
}

fn look_around<L: Copy>(colors: &[L], w: u32, h: u32, i: usize) -> (a: Around<L>)
    requires
        frame(w, h, colors@.len() as int),
        i < colors@.len(),
        interior(w, h, i as int),
    ensures
        a == around(colors@, w, i as int),
{
    let u = w as usize;
    proof {
        interior_has_neighbours(w, h, i as int);
    }
    Around {
        nw: colors[i - u - 1],
        n: colors[i - u],
        ne: colors[i - u + 1],
        w: colors[i - 1],
        e: colors[i + 1],
        sw: colors[i + u - 1],
        s: colors[i + u],
        se: colors[i + u + 1],
    }
}

/// The neighbours of an interior pixel lie in the image.
pub proof fn interior_has_neighbours(w: u32, h: u32, i: int)
    requires
        0 <= i < w * h,
        interior(w, h, i),
    ensures
        0 <= i - w - 1,
        i + w + 1 < w * h,
{
    let ww = w as int;
    let hh = h as int;
    let x = i % ww;
    let y = i / ww;
    assert(i == y * ww + x) by (nonlinear_arith)
        requires
            x == i % ww,
            y == i / ww,
            ww > 0,
    ;
    assert(ww <= y * ww) by (nonlinear_arith)
        requires
            1 <= y,
            0 < ww,
    ;
    assert((y + 2) * ww <= ww * hh) by (nonlinear_arith)
        requires
            y + 2 <= hh,
            0 < ww,
    ;
    assert((y + 2) * ww == y * ww + 2 * ww) by (nonlinear_arith);
}

/// `raw` holds the gradient of every interior pixel, and zero elsewhere.
pub open spec fn gradients<L, G: Fn(Around<L>) -> Scalar>(
    gradient: G,
    colors: Seq<L>,
    w: u32,
    h: u32,
    raw: Seq<Scalar>,
) -> bool {
    &&& raw.len() == w * h
    &&& forall|i: int|
        #![trigger raw[i]]
        0 <= i < raw.len() ==> if interior(w, h, i) {
            call_ensures(gradient, (around(colors, w, i),), raw[i])
        } else {
            raw[i].bits == 0
        }
}

fn measure_gradients<L: Copy, G: Fn(Around<L>) -> Scalar>(
    colors: &[L],
    w: u32,
    h: u32,
    gradient: &G,
) -> (raw: Vec<Scalar>)
    requires
        frame(w, h, colors@.len() as int),
        forall|a: Around<L>| #[trigger] call_requires(*gradient, (a,)),
    ensures
        gradients(*gradient, colors@, w, h, raw@),
{
    let n = colors.len();
    let mut raw: Vec<Scalar> = Vec::new();
    let mut i: usize = 0;
    while i < n
        invariant
            i <= n,
            n == colors@.len(),
            frame(w, h, n as int),
            forall|a: Around<L>| #[trigger] call_requires(*gradient, (a,)),
            raw@.len() == i,
            forall|k: int|
                #![trigger raw@[k]]
                0 <= k < i ==> if interior(w, h, k) {
                    call_ensures(*gradient, (around(colors@, w, k),), raw@[k])
                } else {
                    raw@[k].bits == 0
                },
        decreases n - i,
    {
        let v = if is_interior(w, h, i, Ghost(n as int)) {
            let a = look_around(colors, w, h, i);
            assert(call_requires(*gradient, (a,)));
            gradient(a)
        } else {
            Scalar::zero()
        };
        raw.push(v);
        i += 1;
    }
    raw
}

/// The greatest of `start` and the first `k` values.
pub open spec fn greatest_from(start: Scalar, raw: Seq<Scalar>, k: int) -> Scalar
    decreases k,
{
    if k <= 0 {
        start
    } else if greatest_from(start, raw, k - 1).lt(raw[k - 1]) {
        raw[k - 1]
    } else {
        greatest_from(start, raw, k - 1)
    }
}

fn find_greatest(start: Scalar, raw: &Vec<Scalar>) -> (m: Scalar)
    ensures
        m == greatest_from(start, raw@, raw@.len() as int),
{
    let mut m = start;
    let mut i: usize = 0;
    while i < raw.len()
        invariant
            i <= raw@.len(),
            m == greatest_from(start, raw@, i as int),
        decreases raw@.len() - i,
    {
        if m.less(&raw[i]) {
            m = raw[i];
        }
        i += 1;
    }
    m
}

/// No value exceeds the greatest, and the greatest is not below its start.
pub proof fn greatest_exceeds(start: Scalar, raw: Seq<Scalar>, k: int, i: int)
    requires
        !start.is_nan(),
        0 <= i < k <= raw.len(),
        !raw[i].is_nan(),
    ensures
        raw[i].le(greatest_from(start, raw, k)),
        start.le(greatest_from(start, raw, k)),
    decreases k,
{
    greatest_is_number(start, raw, k - 1);
    if i < k - 1 {
        greatest_exceeds(start, raw, k - 1, i);
    }
}

proof fn greatest_is_number(start: Scalar, raw: Seq<Scalar>, k: int)
    requires
        !start.is_nan(),
        0 <= k <= raw.len(),
    ensures
        !greatest_from(start, raw, k).is_nan(),
        start.le(greatest_from(start, raw, k)),
    decreases k,
{
    if k > 0 {
        greatest_is_number(start, raw, k - 1);
    }
}

/// `e` is the strength that `settle` gives for gradient `v`, where `m` is the
/// greatest, held to the unit range.
pub open spec fn strength<S: Fn(Scalar, Scalar) -> Scalar>(
    settle: S,
    m: Scalar,
    v: Scalar,
    e: Scalar,
) -> bool {
    exists|raw: Scalar| #[trigger] call_ensures(settle, (m, v), raw) && e == unit(raw)
}

fn settle_strength<S: Fn(Scalar, Scalar) -> Scalar>(settle: &S, m: Scalar, v: Scalar) -> (e: Scalar)
    requires
        call_requires(*settle, (m, v)),
    ensures
        strength(*settle, m, v, e),
{
    let raw = settle(m, v);
    let e = clamp_unit(raw);
    assert(call_ensures(*settle, (m, v), raw) && e == unit(raw));
    e
}

/// Gradients are finite, and finite gradients settle to numbers.
pub open spec fn settles_finite<
    L,
    G: Fn(Around<L>) -> Scalar,
    S: Fn(Scalar, Scalar) -> Scalar,
>(gradient: G, settle: S) -> bool {
    &&& forall|a: Around<L>, v: Scalar| #[trigger]
        call_ensures(gradient, (a,), v) ==> v.is_finite()
    &&& forall|m: Scalar, v: Scalar, e: Scalar| #[trigger]
        call_ensures(settle, (m, v), e) && m.is_finite() && v.is_finite() ==> !e.is_nan()
}

proof fn greatest_is_finite(start: Scalar, raw: Seq<Scalar>, k: int)
    requires
        start.is_finite(),
        0 <= k <= raw.len(),
        forall|i: int| #![trigger raw[i]] 0 <= i < k ==> raw[i].is_finite(),
    ensures
        greatest_from(start, raw, k).is_finite(),
    decreases k,
{
    if k > 0 {
        greatest_is_finite(start, raw, k - 1);
        assert(raw[k - 1].is_finite());
    }
}

/// Where gradients are finite and settle to numbers, every strength of an edge
/// map lies in the unit range.
pub proof fn settled_in_unit_range<
    L,
    G: Fn(Around<L>) -> Scalar,
    S: Fn(Scalar, Scalar) -> Scalar,
>(
    gradient: G,
    settle: S,
    colors: Seq<L>,
    w: u32,
    h: u32,
    raw: Seq<Scalar>,
    map: Seq<Scalar>,
)
    requires
        settles_finite(gradient, settle),
        gradients(gradient, colors, w, h, raw),
        map.len() == raw.len(),
        settled_map(settle, w, h, raw, map) || curved_map(settle, w, h, raw, map),
    ensures
        all_unit(map),
{
    assert forall|i: int| #![trigger raw[i]] 0 <= i < raw.len() implies raw[i].is_finite() by {}
    let zero = Scalar { bits: 0 };
    let one = Scalar { bits: ONE_BITS };
    greatest_is_finite(zero, raw, raw.len() as int);
    greatest_is_finite(one, raw, raw.len() as int);
    assert forall|i: int| #![trigger map[i]] 0 <= i < map.len() implies in_unit(map[i]) by {
        assert(raw[i].is_finite());
    }
}

/// An edge map of ones.
pub open spec fn all_ones(map: Seq<Scalar>) -> bool {
    forall|i: int| #![trigger map[i]] 0 <= i < map.len() ==> map[i].bits == ONE_BITS
}

fn ones(n: usize) -> (map: Vec<Scalar>)
    ensures
        map@.len() == n,
        all_ones(map@),
{
    let one = Scalar::new(ONE_BITS);
    let mut map: Vec<Scalar> = Vec::new();
    let mut i: usize = 0;
    while i < n
        invariant
            i <= n,
            one.bits == ONE_BITS,
            map@.len() == i,
            all_ones(map@),
        decreases n - i,
    {
        map.push(one);
        i += 1;
    }
    map
}

/// `map` is the edge map of the gradients `raw`: interior pixels are settled
/// against the greatest gradient, the border is one.
pub open spec fn settled_map<S: Fn(Scalar, Scalar) -> Scalar>(
    settle: S,
    w: u32,
    h: u32,
    raw: Seq<Scalar>,
    map: Seq<Scalar>,
) -> bool {
    let m = greatest_from(Scalar { bits: 0 }, raw, raw.len() as int);
    forall|i: int|
        #![trigger map[i]]
        0 <= i < map.len() ==> if interior(w, h, i) {
            strength(settle, m, raw[i], map[i])
        } else {
            map[i].bits == ONE_BITS
        }
}

/// Every colour is what `convert` makes of its pixel.
pub open spec fn converted<P, L, C: Fn(P) -> L>(
    convert: C,
    pixels: Seq<P>,
    colors: Seq<L>,
) -> bool {
    &&& colors.len() == pixels.len()
    &&& forall|i: int|
        #![trigger colors[i]]
        0 <= i < colors.len() ==> call_ensures(convert, (pixels[i],), colors[i])
}

/// Converts every pixel.
pub fn convert_pixels<P: Copy, L, C: Fn(P) -> L>(pixels: &[P], convert: &C) -> (colors: Vec<L>)
    requires
        forall|p: P| #[trigger] call_requires(*convert, (p,)),
    ensures
        converted(*convert, pixels@, colors@),
{
    let mut colors: Vec<L> = Vec::new();
    let mut i: usize = 0;
    while i < pixels.len()
        invariant
            i <= pixels@.len(),
            forall|p: P| #[trigger] call_requires(*convert, (p,)),
            converted(*convert, pixels@.take(i as int), colors@),
        decreases pixels@.len() - i,
    {
        let ghost before = colors@;
        let p = pixels[i];
        assert(call_requires(*convert, (p,)));
        colors.push(convert(p));
        assert(pixels@.take(i + 1).take(i as int) =~= pixels@.take(i as int));
        assert forall|k: int| #![trigger colors@[k]] 0 <= k < colors@.len() implies call_ensures(
            *convert,
            (pixels@.take(i + 1)[k],),
            colors@[k],
        ) by {
            if k < i {
                assert(colors@[k] == before[k]);
                assert(pixels@.take(i + 1)[k] == pixels@.take(i as int)[k]);
            }
        }
        i += 1;
    }
    assert(pixels@.take(i as int) =~= pixels@);
    colors
}

/// `map` is the edge map of an image: one everywhere where there is no interior,
/// else the gradients of the converted pixels, settled.
pub open spec fn is_edge_map<
    P,
    L,
    C: Fn(P) -> L,
    G: Fn(Around<L>) -> Scalar,
    S: Fn(Scalar, Scalar) -> Scalar,
>(
    convert: C,
    gradient: G,
    settle: S,
    pixels: Seq<P>,
    w: u32,
    h: u32,
    map: Seq<Scalar>,
) -> bool {
    &&& map.len() == pixels.len()
    &&& w < 3 || h < 3 ==> all_ones(map)
    &&& w >= 3 && h >= 3 ==> exists|colors: Seq<L>, raw: Seq<Scalar>|
        {
            &&& converted(convert, pixels, colors)
            &&& #[trigger] gradients(gradient, colors, w, h, raw)
            &&& settled_map(settle, w, h, raw, map)
        }
}

/// Computes the edge map of an image: `convert` turns a pixel into a colour,
/// `gradient` measures the neighbours of an interior pixel, and `settle` turns its
/// gradient, given the greatest of all, into a strength, which is held to the unit
/// range. The border has strength one; so has an image without interior.
pub fn detect_edges<
    P: Copy,
    L: Copy,
    C: Fn(P) -> L,
    G: Fn(Around<L>) -> Scalar,
    S: Fn(Scalar, Scalar) -> Scalar,
>(pixels: &[P], w: u32, h: u32, convert: &C, gradient: &G, settle: &S) -> (map: Vec<Scalar>)
    requires
        frame(w, h, pixels@.len() as int),
        forall|p: P| #[trigger] call_requires(*convert, (p,)),
        forall|a: Around<L>| #[trigger] call_requires(*gradient, (a,)),
        forall|m: Scalar, v: Scalar| #[trigger] call_requires(*settle, (m, v)),
    ensures
        is_edge_map(*convert, *gradient, *settle, pixels@, w, h, map@),
        settles_finite(*gradient, *settle) ==> all_unit(map@),
{
    let n = pixels.len();
    if w < 3 || h < 3 {
        return ones(n);
    }
    let colors = convert_pixels(pixels, convert);
    let raw = measure_gradients(colors.as_slice(), w, h, gradient);
    let m = find_greatest(Scalar::new(0), &raw);
    let one = Scalar::new(ONE_BITS);
    let mut map: Vec<Scalar> = Vec::new();
    let mut i: usize = 0;
    while i < n
        invariant
            i <= n,
            frame(w, h, n as int),
            raw@.len() == n,
            m == greatest_from(Scalar { bits: 0 }, raw@, raw@.len() as int),
            one.bits == ONE_BITS,
            forall|m: Scalar, v: Scalar| #[trigger] call_requires(*settle, (m, v)),
            map@.len() == i,
            settled_map(*settle, w, h, raw@, map@),
        decreases n - i,
    {
        let ghost before = map@;
        let v = if is_interior(w, h, i, Ghost(n as int)) {
            assert(call_requires(*settle, (m, raw@[i as int])));
            settle_strength(settle, m, raw[i])
        } else {
            one
        };
        map.push(v);
        assert forall|k: int| #![trigger map@[k]] 0 <= k < map@.len() implies if interior(w, h, k) {
            strength(*settle, m, raw@[k], map@[k])
        } else {
            map@[k].bits == ONE_BITS
        } by {
            if k < i {
                assert(map@[k] == before[k]);
            }
        }
        i += 1;
    }
    assert(gradients(*gradient, colors@, w, h, raw@));
    proof {
        if settles_finite(*gradient, *settle) {
            settled_in_unit_range(*gradient, *settle, colors@, w, h, raw@, map@);
        }
    }
    map
}

/// `map` is the fast edge map of the gradients `raw`: the border counts as the
/// greatest gradient, and every pixel is curved against it.
pub open spec fn curved_map<S: Fn(Scalar, Scalar) -> Scalar>(
    curve: S,
    w: u32,
    h: u32,
    raw: Seq<Scalar>,
    map: Seq<Scalar>,
) -> bool {
    let m = greatest_from(Scalar { bits: ONE_BITS }, raw, raw.len() as int);
    forall|i: int|
        #![trigger map[i]]
        0 <= i < map.len() ==> strength(
            curve,
            m,
            if interior(w, h, i) {
                raw[i]
            } else {
                m
            },
            map[i],
        )
}

/// `map` is the fast edge map of an image with the given colours: one everywhere
/// where there is no interior, else the gradients, curved.
pub open spec fn is_fast_edge_map<
    L,
    G: Fn(Around<L>) -> Scalar,
    S: Fn(Scalar, Scalar) -> Scalar,
>(gradient: G, curve: S, colors: Seq<L>, w: u32, h: u32, map: Seq<Scalar>) -> bool {
    &&& map.len() == colors.len()
    &&& w < 3 || h < 3 ==> all_ones(map)
    &&& w >= 3 && h >= 3 ==> exists|raw: Seq<Scalar>| #[trigger]
        gradients(gradient, colors, w, h, raw) && curved_map(curve, w, h, raw, map)
}

/// Computes the edge map of an image fast: the greatest gradient is at least one,
/// the border counts as the greatest, and `curve` turns a gradient, given the
/// greatest, into a strength, which is held to the unit range. An image without
/// interior has strength one everywhere.
pub fn detect_edges_fast<
    L: Copy,
    G: Fn(Around<L>) -> Scalar,
    S: Fn(Scalar, Scalar) -> Scalar,
>(colors: &[L], w: u32, h: u32, gradient: &G, curve: &S) -> (map: Vec<Scalar>)
    requires
        frame(w, h, colors@.len() as int),
        forall|a: Around<L>| #[trigger] call_requires(*gradient, (a,)),
        forall|m: Scalar, v: Scalar| #[trigger] call_requires(*curve, (m, v)),
    ensures
        is_fast_edge_map(*gradient, *curve, colors@, w, h, map@),
        settles_finite(*gradient, *curve) ==> all_unit(map@),
{
    let n = colors.len();
    if w < 3 || h < 3 {
        return ones(n);
    }
    let raw = measure_gradients(colors, w, h, gradient);
    let m = find_greatest(Scalar::new(ONE_BITS), &raw);
    let mut map: Vec<Scalar> = Vec::new();
    let mut i: usize = 0;
    while i < n
        invariant
            i <= n,
            frame(w, h, n as int),
            raw@.len() == n,
            m == greatest_from(Scalar { bits: ONE_BITS }, raw@, raw@.len() as int),
            forall|m: Scalar, v: Scalar| #[trigger] call_requires(*curve, (m, v)),
            map@.len() == i,
            curved_map(*curve, w, h, raw@, map@),
        decreases n - i,
    {
        let ghost before = map@;
        let v = if is_interior(w, h, i, Ghost(n as int)) {
            raw[i]
        } else {
            m
        };
        assert(call_requires(*curve, (m, v)));
        let e = settle_strength(curve, m, v);
        map.push(e);
        assert forall|k: int| #![trigger map@[k]] 0 <= k < map@.len() implies strength(
            *curve,
            m,
            if interior(w, h, k) {
                raw@[k]
            } else {
                m
            },
            map@[k],
        ) by {
            if k < i {
                assert(map@[k] == before[k]);
            }
        }
        i += 1;
    }
    assert(gradients(*gradient, colors@, w, h, raw@));
    proof {
        if settles_finite(*gradient, *curve) {
            settled_in_unit_range(*gradient, *curve, colors@, w, h, raw@, map@);
        }
    }
    map
}

/// Exactly the pixels that are not on the outermost rows and columns have all
/// eight neighbours.
pub proof fn interior_is_inside(w: u32, h: u32, x: int, y: int)
    requires
        0 <= x < w,
        0 <= y < h,
    ensures
        interior(w, h, y * w + x) <==> 1 <= x <= w - 2 && 1 <= y <= h - 2,
{
    crate::region::pixel_at(w as int, x, y);
}

/// The neighbours of a pixel lie where their directions say: north is the row
/// above, west the column before.
pub proof fn neighbours_lie_around<L>(colors: Seq<L>, w: u32, x: int, y: int)
    ensures
        ({
            let a = around(colors, w, y * w + x);
            &&& a.nw == colors[(y - 1) * w + (x - 1)]
            &&& a.n == colors[(y - 1) * w + x]
            &&& a.ne == colors[(y - 1) * w + (x + 1)]
            &&& a.w == colors[y * w + (x - 1)]
            &&& a.e == colors[y * w + (x + 1)]
            &&& a.sw == colors[(y + 1) * w + (x - 1)]
            &&& a.s == colors[(y + 1) * w + x]
            &&& a.se == colors[(y + 1) * w + (x + 1)]
        }),
{
    assert((y - 1) * w == y * w - w) by (nonlinear_arith);
    assert((y + 1) * w == y * w + w) by (nonlinear_arith);
}

/// Where the strengths are settled, the outermost rows and columns have strength
/// one, and every other pixel what becomes of its gradient against a gradient that
/// none exceeds.
pub proof fn settled_edges_follow_gradients<L, G: Fn(Around<L>) -> Scalar, S: Fn(Scalar, Scalar) -> Scalar>(
    gradient: G,
    settle: S,
    colors: Seq<L>,
    w: u32,
    h: u32,
    raw: Seq<Scalar>,
    map: Seq<Scalar>,
    x: int,
    y: int,
) -> (m: Scalar)
    requires
        gradients(gradient, colors, w, h, raw),
        settled_map(settle, w, h, raw, map),
        map.len() == raw.len(),
        0 <= x < w,
        0 <= y < h,
        y * w + x < map.len(),
        forall|i: int| #![trigger raw[i]] 0 <= i < raw.len() ==> !raw[i].is_nan(),
    ensures
        forall|i: int| #![trigger raw[i]] 0 <= i < raw.len() ==> raw[i].le(m),
        x == 0 || y == 0 || x == w - 1 || y == h - 1 ==> map[y * w + x].bits
            == 0x3FF0_0000_0000_0000,
        1 <= x <= w - 2 && 1 <= y <= h - 2 ==> exists|s: Scalar| #[trigger]
            call_ensures(settle, (m, raw[y * w + x]), s) && (in_unit(s) ==> map[y * w + x] == s),
{
    let m = greatest_from(Scalar { bits: 0 }, raw, raw.len() as int);
    interior_is_inside(w, h, x, y);
    crate::region::pixel_at(w as int, x, y);
    let i = y * w + x;
    assert forall|k: int| #![trigger raw[k]] 0 <= k < raw.len() implies raw[k].le(m) by {
        greatest_exceeds(Scalar { bits: 0 }, raw, raw.len() as int, k);
    }
    if 1 <= x <= w - 2 && 1 <= y <= h - 2 {
        assert(strength(settle, m, raw[i], map[i]));
        let s = choose|s: Scalar| #[trigger]
            call_ensures(settle, (m, raw[i]), s) && map[i] == unit(s);
        assert(call_ensures(settle, (m, raw[i]), s) && (in_unit(s) ==> map[i] == s));
    }
    m
}

/// Where the strengths are curved, the greatest gradient is at least one and none
/// exceeds it, the outermost rows and columns count as having it, and every other
/// pixel has what becomes of its own.
pub proof fn curved_edges_follow_gradients<L, G: Fn(Around<L>) -> Scalar, S: Fn(Scalar, Scalar) -> Scalar>(
    gradient: G,
    curve: S,
    colors: Seq<L>,
    w: u32,
    h: u32,
    raw: Seq<Scalar>,
    map: Seq<Scalar>,
    x: int,
    y: int,
) -> (r: (Scalar, Scalar))
    requires
        gradients(gradient, colors, w, h, raw),
        curved_map(curve, w, h, raw, map),
        map.len() == raw.len(),
        0 <= x < w,
        0 <= y < h,
        y * w + x < map.len(),
        forall|i: int| #![trigger raw[i]] 0 <= i < raw.len() ==> !raw[i].is_nan(),
    ensures
        (Scalar { bits: 0x3FF0_0000_0000_0000 }).le(r.0),
        forall|i: int| #![trigger raw[i]] 0 <= i < raw.len() ==> raw[i].le(r.0),
        x == 0 || y == 0 || x == w - 1 || y == h - 1 ==> call_ensures(curve, (r.0, r.0), r.1),
        1 <= x <= w - 2 && 1 <= y <= h - 2 ==> call_ensures(curve, (r.0, raw[y * w + x]), r.1)
            && call_ensures(
            gradient,
            (
                Around {
                    nw: colors[(y - 1) * w + (x - 1)],
                    n: colors[(y - 1) * w + x],
                    ne: colors[(y - 1) * w + (x + 1)],
                    w: colors[y * w + (x - 1)],
                    e: colors[y * w + (x + 1)],
                    sw: colors[(y + 1) * w + (x - 1)],
                    s: colors[(y + 1) * w + x],
                    se: colors[(y + 1) * w + (x + 1)],
                },
            ),
            raw[y * w + x],
        ),
        in_unit(r.1) ==> map[y * w + x] == r.1,
{
    let one = Scalar { bits: ONE_BITS };
    let m = greatest_from(one, raw, raw.len() as int);
    interior_is_inside(w, h, x, y);
    neighbours_lie_around(colors, w, x, y);
    crate::region::pixel_at(w as int, x, y);
    let i = y * w + x;
    greatest_is_number(one, raw, raw.len() as int);
    assert forall|k: int| #![trigger raw[k]] 0 <= k < raw.len() implies raw[k].le(m) by {
        greatest_exceeds(one, raw, raw.len() as int, k);
    }
    let v = if interior(w, h, i) {
        raw[i]
    } else {
        m
    };
    assert(raw[i] == raw[i]);
    assert(strength(curve, m, v, map[i]));
    let s = choose|s: Scalar| #[trigger] call_ensures(curve, (m, v), s) && map[i] == unit(s);
    (m, s)
}

/// The value at a place of an image of width `w`, or `None` outside of it.
pub fn at(x: i32, y: i32, w: u32, lab: &[[Scalar; 3]]) -> (v: Option<[Scalar; 3]>)
    requires
        0 < w <= i32::MAX,
        lab@.len() <= u32::MAX,
    ensures
        v == if 0 <= x < w && 0 <= y < lab@.len() as int / w as int {
            Some(lab@[y * w + x])
        } else {
            None
        },
{
    let h: usize = lab.len() / (w as usize);
    if x < 0 || y < 0 || x >= w as i32 || y as usize >= h {
        return None;
    }
    proof {
        let n = lab@.len() as int;
        let ww = w as int;
        assert(y * ww + x < n && 0 <= y * ww) by (nonlinear_arith)
            requires
                0 <= x < ww,
                0 <= y,
                y + 1 <= n / ww,
                0 < ww,
        ;
    }
    Some(lab[(y as u64 * w as u64 + x as u64) as usize])
}

/// An image fewer than three pixels wide or high is edge throughout.
pub proof fn thin_images_are_all_edge<
    P,
    L,
    C: Fn(P) -> L,
    G: Fn(Around<L>) -> Scalar,
    S: Fn(Scalar, Scalar) -> Scalar,
>(
    convert: C,
    gradient: G,
    settle: S,
    pixels: Seq<P>,
    colors: Seq<L>,
    w: u32,
    h: u32,
    map: Seq<Scalar>,
    fast: Seq<Scalar>,
    i: int,
)
    requires
        is_edge_map(convert, gradient, settle, pixels, w, h, map),
        is_fast_edge_map(gradient, settle, colors, w, h, fast),
        pixels.len() == colors.len(),
        0 <= i < pixels.len(),
        w <= 2 || h <= 2,
    ensures
        map.len() == pixels.len(),
        fast.len() == pixels.len(),
        map[i].bits == 0x3FF0_0000_0000_0000,
        fast[i].bits == 0x3FF0_0000_0000_0000,
{
}

/// In any other image, strengths are settled from the gradients of the converted
/// pixels.
pub proof fn edges_come_of_pixels<
    P,
    L,
    C: Fn(P) -> L,
    G: Fn(Around<L>) -> Scalar,
    S: Fn(Scalar, Scalar) -> Scalar,
>(
    convert: C,
    gradient: G,
    settle: S,
    pixels: Seq<P>,
    w: u32,
    h: u32,
    map: Seq<Scalar>,
    i: int,
) -> (r: (Seq<L>, Seq<Scalar>))
    requires
        is_edge_map(convert, gradient, settle, pixels, w, h, map),
        w >= 3,
        h >= 3,
        0 <= i < pixels.len(),
    ensures
        map.len() == pixels.len(),
        r.0.len() == pixels.len(),
        call_ensures(convert, (pixels[i],), r.0[i]),
        gradients(gradient, r.0, w, h, r.1),
        settled_map(settle, w, h, r.1, map),
{
    let (colors, raw) = choose|colors: Seq<L>, raw: Seq<Scalar>|
        {
            &&& converted(convert, pixels, colors)
            &&& #[trigger] gradients(gradient, colors, w, h, raw)
            &&& settled_map(settle, w, h, raw, map)
        };
    (colors, raw)
}

/// The fast strengths of any other image are curved from the gradients of its
/// colours.
pub proof fn fast_edges_come_of_colors<
    L,
    G: Fn(Around<L>) -> Scalar,
    S: Fn(Scalar, Scalar) -> Scalar,
>(gradient: G, curve: S, colors: Seq<L>, w: u32, h: u32, map: Seq<Scalar>) -> (raw: Seq<Scalar>)
    requires
        is_fast_edge_map(gradient, curve, colors, w, h, map),
        w >= 3,
        h >= 3,
    ensures
        map.len() == colors.len(),
        gradients(gradient, colors, w, h, raw),
        curved_map(curve, w, h, raw, map),
{
    choose|raw: Seq<Scalar>| #[trigger]
        gradients(gradient, colors, w, h, raw) && curved_map(curve, w, h, raw, map)
}

} // verus!
