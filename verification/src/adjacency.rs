//! Which regions touch, and along which pixel pairs.

use vstd::prelude::*;
use crate::order::{in_order, is_permutation, permutation_reaches, precedes, stable_order};
use crate::region::frame;

verus! {

/// Two touching regions, `a < b`, with the pixel pairs along their boundary in
/// scan order: each pixel with its right or lower neighbour.
#[derive(Clone, Debug)]
pub struct AdjacentStats {
    pub a: usize,
    pub b: usize,
    pub samples: Vec<(usize, usize)>,
}

/// Pixel `j` is the right or lower neighbour of pixel `i`, and the two carry
/// different labels.
pub open spec fn touches(labels: Seq<Option<usize>>, w: int, i: int, j: int) -> bool {
    &&& 0 <= i < labels.len()
    &&& 0 <= j < labels.len()
    &&& (j == i + 1 && j % w != 0) || j == i + w
    &&& labels[i] is Some
    &&& labels[j] is Some
    &&& labels[i] != labels[j]
}

/// The two labels of a contact are `a` and `b`.
pub open spec fn between(labels: Seq<Option<usize>>, i: int, j: int, a: int, b: int) -> bool {
    ||| labels[i]->Some_0 == a && labels[j]->Some_0 == b
    ||| labels[i]->Some_0 == b && labels[j]->Some_0 == a
}

/// Scan order of pixel pairs.
pub open spec fn scanned_before(p: (usize, usize), q: (usize, usize)) -> bool {
    p.0 < q.0 || (p.0 == q.0 && p.1 < q.1)
}

/// The pair lists boundary contacts of its two regions, in scan order.
pub open spec fn pair_wf(labels: Seq<Option<usize>>, w: int, p: AdjacentStats) -> bool {
    &&& p.a < p.b
    &&& p.samples@.len() > 0
    &&& forall|s: int|
        #![trigger p.samples@[s]]
        0 <= s < p.samples@.len() ==> {
            let (i, j) = p.samples@[s];
            touches(labels, w, i as int, j as int) && between(
                labels,
                i as int,
                j as int,
                p.a as int,
                p.b as int,
            )
        }
    &&& forall|s: int, t: int|
        #![trigger p.samples@[s], p.samples@[t]]
        0 <= s < t < p.samples@.len() ==> scanned_before(p.samples@[s], p.samples@[t])
}

/// The pairs come in increasing order of `(a, b)`.
pub open spec fn pairs_ascending(pairs: Seq<AdjacentStats>) -> bool {
    forall|k: int, m: int|
        #![trigger pairs[k], pairs[m]]
        0 <= k < m < pairs.len() ==> pairs[k].a < pairs[m].a || (pairs[k].a == pairs[m].a
            && pairs[k].b < pairs[m].b)
}

/// The contact of pixels `i` and `j` is among the samples of some pair.
pub open spec fn listed(pairs: Seq<AdjacentStats>, i: int, j: int) -> bool {
    exists|k: int, s: int|
        #![trigger pairs[k].samples@[s]]
        0 <= k < pairs.len() && 0 <= s < pairs[k].samples@.len() && pairs[k].samples@[s] == (
            i as usize,
            j as usize,
        )
}

/// `pairs` is the adjacency of the label map.
pub open spec fn is_adjacency(
    labels: Seq<Option<usize>>,
    w: int,
    pairs: Seq<AdjacentStats>,
) -> bool {
    &&& forall|k: int| 0 <= k < pairs.len() ==> pair_wf(labels, w, #[trigger] pairs[k])
    &&& pairs_ascending(pairs)
    &&& forall|i: int, j: int| #[trigger]
        touches(labels, w, i, j) ==> listed(pairs, i, j)
}

/// Two pixels side by side or one above the other, of different labels, are listed
/// as a contact of just the pair of their labels, the lesser label first.
pub proof fn neighbours_are_listed(
    labels: Seq<Option<usize>>,
    w: int,
    pairs: Seq<AdjacentStats>,
    i: int,
    j: int,
) -> (at: (int, int))
    requires
        is_adjacency(labels, w, pairs),
        labels.len() <= usize::MAX,
        0 <= i < labels.len(),
        0 <= j < labels.len(),
        (j == i + 1 && j % w != 0) || j == i + w,
        labels[i] is Some,
        labels[j] is Some,
        labels[i] != labels[j],
    ensures
        0 <= at.0 < pairs.len(),
        0 <= at.1 < pairs[at.0].samples@.len(),
        pairs[at.0].samples@[at.1] == (i as usize, j as usize),
        pairs[at.0].a < pairs[at.0].b,
        labels[i] == Some(pairs[at.0].a) && labels[j] == Some(pairs[at.0].b) || labels[i] == Some(
            pairs[at.0].b,
        ) && labels[j] == Some(pairs[at.0].a),
{
    assert(touches(labels, w, i, j));
    let (k, s) = choose|k: int, s: int|
        #![trigger pairs[k].samples@[s]]
        0 <= k < pairs.len() && 0 <= s < pairs[k].samples@.len() && pairs[k].samples@[s] == (
            i as usize,
            j as usize,
        );
    assert(pair_wf(labels, w, pairs[k]));
    (k, s)
}

/// Every contact of a pair is one of two neighbouring pixels that carry its two
/// labels, and no two pairs name the same regions.
pub proof fn contacts_are_neighbours(
    labels: Seq<Option<usize>>,
    w: int,
    pairs: Seq<AdjacentStats>,
    k: int,
    s: int,
    m: int,
)
    requires
        is_adjacency(labels, w, pairs),
        0 <= k < pairs.len(),
        0 <= s < pairs[k].samples@.len(),
        0 <= m < pairs.len(),
        m != k,
    ensures
        ({
            let i = pairs[k].samples@[s].0 as int;
            let j = pairs[k].samples@[s].1 as int;
            &&& i < labels.len() && j < labels.len()
            &&& (j == i + 1 && j % w != 0) || j == i + w
            &&& labels[i] == Some(pairs[k].a) && labels[j] == Some(pairs[k].b) || labels[i] == Some(
                pairs[k].b,
            ) && labels[j] == Some(pairs[k].a)
        }),
        pairs[k].a != pairs[m].a || pairs[k].b != pairs[m].b,
{
    assert(pair_wf(labels, w, pairs[k]));
    assert(pair_wf(labels, w, pairs[m]));
    assert(pairs[k].samples@[s] == pairs[k].samples@[s]);
}

/// Packs two 32-bit region numbers into one ordered key.
pub fn pack_pair_key(a: usize, b: usize) -> (key: u64)
    ensures
        key == ((a as u64) << 32) | b as u64,
        a <= u32::MAX && b <= u32::MAX ==> key == a * 0x1_0000_0000 + b,
{
    let x = a as u64;
    let y = b as u64;
    proof {
        if a <= u32::MAX && b <= u32::MAX {
            assert((x << 32) | y == x * 0x1_0000_0000 + y) by (bit_vector)
                requires
                    x <= 0xffff_ffff,
                    y <= 0xffff_ffff,
            ;
        }
    }
    (x << 32) | y
}

/// The two region numbers of a key.
pub fn unpack_pair_key(key: u64) -> (r: (usize, usize))
    ensures
        r.0 == key / 0x1_0000_0000,
        r.1 == key % 0x1_0000_0000,
{
    proof {
        assert(key >> 32 == key / 0x1_0000_0000) by (bit_vector);
        assert(key & 0xffff_ffff == key % 0x1_0000_0000) by (bit_vector);
    }
    ((key >> 32) as usize, (key & 0xffff_ffff) as usize)
}

/// Unpacking a packed pair of 32-bit numbers gives the pair back, and keys are
/// ordered as pairs are.
pub proof fn pair_keys_round_trip(a: int, b: int, c: int, d: int)
    requires
        0 <= a <= u32::MAX,
        0 <= b <= u32::MAX,
        0 <= c <= u32::MAX,
        0 <= d <= u32::MAX,
    ensures
        (a * 0x1_0000_0000 + b) / 0x1_0000_0000 == a,
        (a * 0x1_0000_0000 + b) % 0x1_0000_0000 == b,
        a * 0x1_0000_0000 + b < c * 0x1_0000_0000 + d <==> a < c || (a == c && b < d),
{
}

/// Labels fit in 32 bits.
pub open spec fn labels_fit(labels: Seq<Option<usize>>) -> bool {
    forall|i: int|
        #![trigger labels[i]]
        0 <= i < labels.len() && labels[i] is Some ==> labels[i]->Some_0 <= u32::MAX
}

/// Key of the regions of a contact.
spec fn contact_key(labels: Seq<Option<usize>>, c: (usize, usize)) -> int {
    let a = labels[c.0 as int]->Some_0 as int;
    let b = labels[c.1 as int]->Some_0 as int;
    if a < b {
        a * 0x1_0000_0000 + b
    } else {
        b * 0x1_0000_0000 + a
    }
}

spec fn contacts_wf(
    labels: Seq<Option<usize>>,
    w: int,
    contacts: Seq<(usize, usize)>,
    keys: Seq<u64>,
) -> bool {
    &&& contacts.len() == keys.len()
    &&& forall|m: int|
        #![trigger contacts[m]]
        0 <= m < contacts.len() ==> touches(
            labels,
            w,
            contacts[m].0 as int,
            contacts[m].1 as int,
        )
    &&& forall|m: int|
        #![trigger keys[m]]
        0 <= m < contacts.len() ==> keys[m] == contact_key(labels, contacts[m])
    &&& forall|m: int, q: int|
        #![trigger contacts[m], contacts[q]]
        0 <= m < q < contacts.len() ==> scanned_before(contacts[m], contacts[q])
}

spec fn has_contact(contacts: Seq<(usize, usize)>, i: int, j: int) -> bool {
    exists|m: int|
        #![trigger contacts[m]]
        0 <= m < contacts.len() && contacts[m] == (i as usize, j as usize)
}

/// Records the contact of pixels `i` and `j` if their labels differ.
fn push_adj_sample(
    contacts: &mut Vec<(usize, usize)>,
    keys: &mut Vec<u64>,
    labels: &[Option<usize>],
    i: usize,
    j: usize,
    a: usize,
    Ghost(w): Ghost<int>,
)
    requires
        i < j < labels@.len(),
        (j == i + 1 && j as int % w != 0) || j == i + w,
        labels@[i as int] == Some(a),
        labels_fit(labels@),
        contacts_wf(labels@, w, old(contacts)@, old(keys)@),
        forall|m: int|
            #![trigger old(contacts)@[m]]
            0 <= m < old(contacts)@.len() ==> scanned_before(old(contacts)@[m], (i, j)),
    ensures
        contacts_wf(labels@, w, final(contacts)@, final(keys)@),
        touches(labels@, w, i as int, j as int) ==> final(contacts)@ == old(contacts)@.push((i, j)),
        !touches(labels@, w, i as int, j as int) ==> final(contacts)@ == old(contacts)@,
{
    if let Some(b) = labels[j] {
        if a == b {
            return;
        }
        let key = if a < b {
            pack_pair_key(a, b)
        } else {
            pack_pair_key(b, a)
        };
        contacts.push((i, j));
        keys.push(key);
    }
}

/// Collects the boundary contacts in scan order, with their region keys.
fn collect_contacts(labels: &[Option<usize>], width: u32, height: u32) -> (r: (
    Vec<(usize, usize)>,
    Vec<u64>,
))
    requires
        frame(width, height, labels@.len() as int),
        labels_fit(labels@),
    ensures
        contacts_wf(labels@, width as int, r.0@, r.1@),
        forall|i: int, j: int| #[trigger]
            touches(labels@, width as int, i, j) ==> has_contact(r.0@, i, j),
{
    let n = labels.len();
    let w = width as usize;
    let mut contacts: Vec<(usize, usize)> = Vec::new();
    let mut keys: Vec<u64> = Vec::new();
    let mut idx: usize = 0;
    while idx < n
        invariant
            idx <= n,
            n == labels@.len(),
            w == width,
            frame(width, height, n as int),
            labels_fit(labels@),
            contacts_wf(labels@, w as int, contacts@, keys@),
            forall|m: int|
                #![trigger contacts@[m]]
                0 <= m < contacts@.len() ==> contacts@[m].0 < idx,
            forall|i: int, j: int| #[trigger]
                touches(labels@, w as int, i, j) && i < idx ==> has_contact(contacts@, i, j),
        decreases n - idx,
    {
        proof {
            crate::region::pixel_in_frame(width, height, n as int, idx as int);
            next_column(idx as int, w as int);
        }
        let ghost start = contacts@;
        if let Some(a) = labels[idx] {
            if idx % w + 1 < w && idx + 1 < n {
                push_adj_sample(
                    &mut contacts,
                    &mut keys,
                    labels,
                    idx,
                    idx + 1,
                    a,
                    Ghost(w as int),
                );
            }
            let ghost middle = contacts@;
            if w < n - idx {
                push_adj_sample(
                    &mut contacts,
                    &mut keys,
                    labels,
                    idx,
                    idx + w,
                    a,
                    Ghost(w as int),
                );
            }
            proof {
                assert forall|i: int, j: int| #[trigger]
                    touches(labels@, w as int, i, j) && i <= idx implies has_contact(
                    contacts@,
                    i,
                    j,
                ) by {
                    if i < idx {
                        assert(has_contact(start, i, j));
                        let m = choose|m: int|
                            #![trigger start[m]]
                            0 <= m < start.len() && start[m] == (i as usize, j as usize);
                        assert(contacts@[m] == start[m]);
                    } else if j == idx + w {
                        assert(contacts@[contacts@.len() - 1] == (i as usize, j as usize));
                    } else {
                        assert(middle[middle.len() - 1] == (i as usize, j as usize));
                        assert(contacts@[middle.len() - 1] == (i as usize, j as usize));
                    }
                }
            }
        }
        idx += 1;
    }
    (contacts, keys)
}

proof fn next_column(i: int, w: int)
    requires
        w > 0,
        0 <= i,
    ensures
        i % w + 1 < w <==> (i + 1) % w != 0,
{
    let x = i % w;
    let y = i / w;
    assert(i == w * y + x) by (nonlinear_arith)
        requires
            w > 0,
            x == i % w,
            y == i / w,
    ;
    assert(0 <= x < w) by (nonlinear_arith)
        requires
            w > 0,
            x == i % w,
    ;
    if x + 1 < w {
        assert(i + 1 == y * w + (x + 1)) by (nonlinear_arith)
            requires
                i == w * y + x,
        ;
        vstd::arithmetic::div_mod::lemma_fundamental_div_mod_converse_mod(i + 1, w, y, x + 1);
    } else {
        assert(i + 1 == (y + 1) * w) by (nonlinear_arith)
            requires
                i == w * y + x,
                x + 1 == w,
        ;
        vstd::arithmetic::div_mod::lemma_fundamental_div_mod_converse_mod(i + 1, w, y + 1, 0);
    }
}

/// The adjacency of a label map: every pair of touching regions once, with the
/// contacts along their boundary.
pub fn compute_adjacency(labels: &[Option<usize>], width: u32, height: u32) -> (pairs: Vec<
    AdjacentStats,
>)
    requires
        frame(width, height, labels@.len() as int),
        labels_fit(labels@),
    ensures
        is_adjacency(labels@, width as int, pairs@),
{
    let (contacts, keys) = collect_contacts(labels, width, height);
    let order = stable_order(&keys);
    let mut pairs: Vec<AdjacentStats> = Vec::new();
    let mut current: u64 = 0;
    let ghost mut place: Seq<(int, int)> = seq![];
    let ghost mut origin: Seq<Seq<int>> = seq![];
    let mut t: usize = 0;
    let ghost w = width as int;
    while t < order.len()
        invariant
            t <= order@.len(),
            contacts_wf(labels@, w, contacts@, keys@),
            labels_fit(labels@),
            is_permutation(order@, keys@.len() as int),
            in_order(keys@, order@),
            grouped(pairs@, origin, place, contacts@, keys@, order@, t as int),
            t > 0 ==> current == keys@[order@[t - 1] as int],
        decreases order@.len() - t,
    {
        let at = order[t];
        let key = keys[at];
        proof {
            assert(keys@[at as int] == contact_key(labels@, contacts@[at as int]));
            let c = contacts@[at as int];
            let la = labels@[c.0 as int]->Some_0 as int;
            let lb = labels@[c.1 as int]->Some_0 as int;
            assert(touches(labels@, w, c.0 as int, c.1 as int));
            pair_keys_round_trip(la, lb, la, lb);
            pair_keys_round_trip(lb, la, lb, la);
            if t > 0 {
                assert(precedes(keys@, order@[t - 1] as int, order@[t as int] as int));
            }
        }
        let ghost old_pairs = pairs@;
        if t == 0 || key != current {
            let (a, b) = unpack_pair_key(key);
            let mut samples: Vec<(usize, usize)> = Vec::new();
            samples.push(contacts[at]);
            pairs.push(AdjacentStats { a, b, samples });
            current = key;
            proof {
                assert(pairs@[pairs@.len() - 1].samples@ =~= seq![contacts@[at as int]]);
                assert(pairs@ =~= old_pairs.push(pairs@[pairs@.len() - 1]));
                grouped_open(
                    old_pairs,
                    pairs@[pairs@.len() - 1],
                    origin,
                    place,
                    contacts@,
                    keys@,
                    order@,
                    t as int,
                );
                place = place.push((pairs@.len() - 1, 0int));
                origin = origin.push(seq![t as int]);
            }
        } else if let Some(mut open) = pairs.pop() {
            open.samples.push(contacts[at]);
            pairs.push(open);
            proof {
                let last = old_pairs.len() - 1;
                assert(pairs@ =~= old_pairs.update(last, open));
                grouped_extend(
                    old_pairs,
                    open,
                    origin,
                    place,
                    contacts@,
                    keys@,
                    order@,
                    t as int,
                );
                place = place.push((last, open.samples@.len() - 1));
                origin = origin.update(last, origin[last].push(t as int));
            }
        }
        t += 1;
    }
    proof {
        assert forall|k: int| 0 <= k < pairs@.len() implies pair_wf(
            labels@,
            w,
            #[trigger] pairs@[k],
        ) by {
            let p = pairs@[k];
            let from = origin[k];
            assert(pair_grouped(p, from, contacts@, keys@, order@, order@.len() as int));
            assert forall|s: int| #![trigger p.samples@[s]] 0 <= s < p.samples@.len() implies {
                let (i, j) = p.samples@[s];
                touches(labels@, w, i as int, j as int) && between(
                    labels@,
                    i as int,
                    j as int,
                    p.a as int,
                    p.b as int,
                )
            } by {
                let m = order@[from[s]] as int;
                assert(p.samples@[s] == contacts@[m]);
                assert(keys@[m] == contact_key(labels@, contacts@[m]));
                let c = contacts@[m];
                let la = labels@[c.0 as int]->Some_0 as int;
                let lb = labels@[c.1 as int]->Some_0 as int;
                assert(touches(labels@, w, c.0 as int, c.1 as int));
                pair_keys_round_trip(la, lb, p.a as int, p.b as int);
                pair_keys_round_trip(lb, la, p.a as int, p.b as int);
                pair_keys_round_trip(p.a as int, p.b as int, p.a as int, p.b as int);
            }
            assert forall|s: int, u: int|
                #![trigger p.samples@[s], p.samples@[u]]
                0 <= s < u < p.samples@.len() implies scanned_before(
                p.samples@[s],
                p.samples@[u],
            ) by {
                let x = from[s];
                let y = from[u];
                assert(x < y);
                assert(precedes(keys@, order@[x] as int, order@[y] as int));
            }
        }
        assert forall|k: int, m: int|
            #![trigger pairs@[k], pairs@[m]]
            0 <= k < m < pairs@.len() implies pairs@[k].a < pairs@[m].a || (pairs@[k].a
            == pairs@[m].a && pairs@[k].b < pairs@[m].b) by {
            assert(pair_grouped(
                pairs@[k],
                origin[k],
                contacts@,
                keys@,
                order@,
                order@.len() as int,
            ));
            assert(pair_grouped(
                pairs@[m],
                origin[m],
                contacts@,
                keys@,
                order@,
                order@.len() as int,
            ));
            pair_keys_round_trip(
                pairs@[k].a as int,
                pairs@[k].b as int,
                pairs@[m].a as int,
                pairs@[m].b as int,
            );
        }
        assert forall|i: int, j: int| #[trigger] touches(labels@, w, i, j) implies listed(
            pairs@,
            i,
            j,
        ) by {
            assert(has_contact(contacts@, i, j));
            let m = choose|m: int|
                #![trigger contacts@[m]]
                0 <= m < contacts@.len() && contacts@[m] == (i as usize, j as usize);
            permutation_reaches(order@, keys@.len() as int, m);
            let q = choose|q: int| 0 <= q < order@.len() && order@[q] == m;
            let (k, s) = place[q];
            assert(placed(pairs@, place[q], contacts@[order@[q] as int]));
            assert(pairs@[k].samples@[s] == (i as usize, j as usize));
        }
    }
    pairs
}

spec fn pair_key(p: AdjacentStats) -> int {
    p.a * 0x1_0000_0000 + p.b
}

/// The first `t` contacts in key order have been grouped into `pairs`: contact
/// number `m` went to `place[m]`, and sample `s` of pair `k` is contact number
/// `origin[k][s]`.
spec fn grouped(
    pairs: Seq<AdjacentStats>,
    origin: Seq<Seq<int>>,
    place: Seq<(int, int)>,
    contacts: Seq<(usize, usize)>,
    keys: Seq<u64>,
    order: Seq<usize>,
    t: int,
) -> bool {
    &&& place.len() == t
    &&& origin.len() == pairs.len()
    &&& (pairs.len() == 0) == (t == 0)
    &&& t > 0 ==> keys[order[t - 1] as int] == pair_key(pairs.last())
    &&& forall|m: int|
        #![trigger place[m]]
        0 <= m < t ==> placed(pairs, place[m], contacts[order[m] as int])
    &&& forall|k: int|
        #![trigger pairs[k]]
        0 <= k < pairs.len() ==> pair_grouped(pairs[k], origin[k], contacts, keys, order, t)
    &&& forall|k: int, m: int|
        #![trigger pairs[k], pairs[m]]
        0 <= k < m < pairs.len() ==> pair_key(pairs[k]) < pair_key(pairs[m])
}

spec fn placed(pairs: Seq<AdjacentStats>, at: (int, int), contact: (usize, usize)) -> bool {
    &&& 0 <= at.0 < pairs.len()
    &&& 0 <= at.1 < pairs[at.0].samples@.len()
    &&& pairs[at.0].samples@[at.1] == contact
}

spec fn pair_grouped(
    p: AdjacentStats,
    from: Seq<int>,
    contacts: Seq<(usize, usize)>,
    keys: Seq<u64>,
    order: Seq<usize>,
    t: int,
) -> bool {
    &&& p.a < p.b <= u32::MAX
    &&& from.len() == p.samples@.len()
    &&& p.samples@.len() > 0
    &&& forall|s: int|
        #![trigger from[s]]
        0 <= s < from.len() ==> {
            &&& 0 <= from[s] < t
            &&& p.samples@[s] == contacts[order[from[s]] as int]
            &&& keys[order[from[s]] as int] == pair_key(p)
        }
    &&& forall|s: int, u: int|
        #![trigger from[s], from[u]]
        0 <= s < u < from.len() ==> from[s] < from[u]
}

proof fn grouped_open(
    pairs: Seq<AdjacentStats>,
    fresh: AdjacentStats,
    origin: Seq<Seq<int>>,
    place: Seq<(int, int)>,
    contacts: Seq<(usize, usize)>,
    keys: Seq<u64>,
    order: Seq<usize>,
    t: int,
)
    requires
        grouped(pairs, origin, place, contacts, keys, order, t),
        0 <= t < order.len(),
        fresh.a < fresh.b <= u32::MAX,
        fresh.samples@ == seq![contacts[order[t] as int]],
        keys[order[t] as int] == pair_key(fresh),
        t > 0 ==> keys[order[t - 1] as int] < keys[order[t] as int],
    ensures
        grouped(
            pairs.push(fresh),
            origin.push(seq![t]),
            place.push((pairs.len() as int, 0int)),
            contacts,
            keys,
            order,
            t + 1,
        ),
{
    let pairs1 = pairs.push(fresh);
    let origin1 = origin.push(seq![t]);
    let place1 = place.push((pairs.len() as int, 0int));
    assert forall|m: int| #![trigger place1[m]] 0 <= m < t + 1 implies placed(
        pairs1,
        place1[m],
        contacts[order[m] as int],
    ) by {
        if m < t {
            assert(placed(pairs, place[m], contacts[order[m] as int]));
        }
    }
    assert forall|k: int| #![trigger pairs1[k]] 0 <= k < pairs1.len() implies pair_grouped(
        pairs1[k],
        origin1[k],
        contacts,
        keys,
        order,
        t + 1,
    ) by {
        if k < pairs.len() {
            assert(pair_grouped(pairs[k], origin[k], contacts, keys, order, t));
        }
    }
    assert forall|k: int, m: int|
        #![trigger pairs1[k], pairs1[m]]
        0 <= k < m < pairs1.len() implies pair_key(pairs1[k]) < pair_key(pairs1[m]) by {
        if m == pairs.len() && k < pairs.len() - 1 {
            assert(pair_key(pairs[k]) < pair_key(pairs[pairs.len() - 1]));
        }
    }
}

proof fn grouped_extend(
    pairs: Seq<AdjacentStats>,
    grown: AdjacentStats,
    origin: Seq<Seq<int>>,
    place: Seq<(int, int)>,
    contacts: Seq<(usize, usize)>,
    keys: Seq<u64>,
    order: Seq<usize>,
    t: int,
)
    requires
        grouped(pairs, origin, place, contacts, keys, order, t),
        0 < t < order.len(),
        grown.a == pairs.last().a,
        grown.b == pairs.last().b,
        grown.samples@ == pairs.last().samples@.push(contacts[order[t] as int]),
        keys[order[t - 1] as int] == keys[order[t] as int],
    ensures
        grouped(
            pairs.update(pairs.len() - 1, grown),
            origin.update(pairs.len() - 1, origin.last().push(t)),
            place.push((pairs.len() - 1, grown.samples@.len() - 1)),
            contacts,
            keys,
            order,
            t + 1,
        ),
{
    let last = pairs.len() - 1;
    let pairs1 = pairs.update(last, grown);
    let origin1 = origin.update(last, origin.last().push(t));
    let place1 = place.push((last, grown.samples@.len() - 1));
    assert(pair_grouped(pairs[last], origin[last], contacts, keys, order, t));
    assert forall|m: int| #![trigger place1[m]] 0 <= m < t + 1 implies placed(
        pairs1,
        place1[m],
        contacts[order[m] as int],
    ) by {
        if m < t {
            assert(placed(pairs, place[m], contacts[order[m] as int]));
        }
    }
    assert forall|k: int| #![trigger pairs1[k]] 0 <= k < pairs1.len() implies pair_grouped(
        pairs1[k],
        origin1[k],
        contacts,
        keys,
        order,
        t + 1,
    ) by {
        assert(pair_grouped(pairs[k], origin[k], contacts, keys, order, t));
        if k == last {
            let from = origin1[k];
            assert forall|s: int| #![trigger from[s]] 0 <= s < from.len() implies {
                &&& 0 <= from[s] < t + 1
                &&& grown.samples@[s] == contacts[order[from[s]] as int]
                &&& keys[order[from[s]] as int] == pair_key(grown)
            } by {
                if s < origin[k].len() {
                    assert(origin[k][s] == from[s]);
                }
            }
            assert forall|s: int, u: int|
                #![trigger from[s], from[u]]
                0 <= s < u < from.len() implies from[s] < from[u] by {
                assert(origin[k][s] == from[s]);
                if u < origin[k].len() {
                    assert(origin[k][u] == from[u]);
                }
            }
        }
    }
    assert forall|k: int, m: int|
        #![trigger pairs1[k], pairs1[m]]
        0 <= k < m < pairs1.len() implies pair_key(pairs1[k]) < pair_key(pairs1[m]) by {
        assert(pair_key(pairs[k]) < pair_key(pairs[m]));
    }
}

/// The neighbours of region `r` by the first `k` pairs, each with the number of
/// its pair.
pub open spec fn neighbours_of(pairs: Seq<AdjacentStats>, r: int, k: int) -> Seq<(usize, usize)>
    decreases k,
{
    if k <= 0 {
        seq![]
    } else {
        let before = neighbours_of(pairs, r, k - 1);
        let p = pairs[k - 1];
        let one = if p.a == r {
            before.push((p.b, (k - 1) as usize))
        } else {
            before
        };
        if p.b == r {
            one.push((p.a, (k - 1) as usize))
        } else {
            one
        }
    }
}

/// Lists the neighbours of every region: each pair appears with both its regions.
pub fn compute_region_adjacency(pairs: &Vec<AdjacentStats>, regions: usize) -> (lists: Vec<
    Vec<(usize, usize)>,
>)
    requires
        forall|k: int|
            #![trigger pairs@[k]]
            0 <= k < pairs@.len() ==> pairs@[k].a < regions && pairs@[k].b < regions,
    ensures
        lists@.len() == regions,
        forall|r: int|
            #![trigger lists@[r]]
            0 <= r < regions ==> lists@[r]@ == neighbours_of(pairs@, r, pairs@.len() as int),
{
    let mut lists: Vec<Vec<(usize, usize)>> = Vec::new();
    let mut r: usize = 0;
    while r < regions
        invariant
            r <= regions,
            lists@.len() == r,
            forall|q: int| #![trigger lists@[q]] 0 <= q < r ==> lists@[q]@.len() == 0,
        decreases regions - r,
    {
        lists.push(Vec::new());
        r += 1;
    }
    assert forall|q: int| #![trigger lists@[q]] 0 <= q < regions implies lists@[q]@
        == neighbours_of(pairs@, q, 0) by {
        assert(lists@[q]@ =~= Seq::empty());
    }
    let mut k: usize = 0;
    while k < pairs.len()
        invariant
            k <= pairs@.len(),
            forall|k: int|
                #![trigger pairs@[k]]
                0 <= k < pairs@.len() ==> pairs@[k].a < regions && pairs@[k].b < regions,
            lists@.len() == regions,
            forall|q: int|
                #![trigger lists@[q]]
                0 <= q < regions ==> lists@[q]@ == neighbours_of(pairs@, q, k as int),
        decreases pairs@.len() - k,
    {
        let a = pairs[k].a;
        let b = pairs[k].b;
        assert(pairs@[k as int].a < regions);
        let ghost before = lists@;
        lists[a].push((b, k));
        let ghost middle = lists@;
        lists[b].push((a, k));
        assert forall|q: int| #![trigger lists@[q]] 0 <= q < regions implies lists@[q]@
            == neighbours_of(pairs@, q, k + 1) by {
            assert(before[q]@ == neighbours_of(pairs@, q, k as int));
            assert(middle[q]@ == if q == a {
                before[q]@.push((b, k))
            } else {
                before[q]@
            });
        }
        k += 1;
    }
    lists
}

} // verus!
