//! Disjoint sets over `0..n`, with path halving and union by size.

use vstd::prelude::*;
use crate::classes::{
    class_count, class_number, class_number_attained, class_numbers_dense, is_classes, join,
    join_is_classes, leaders, leaders_monotone, members, members_disjoint, members_of_join,
    singletons,
};

verus! {

/// A partition of `0..n` under repeated union.
pub struct Uf {
    parent: Vec<usize>,
    size: Vec<usize>,
    depth: Ghost<Seq<nat>>,
    classes: Ghost<Seq<int>>,
}

impl View for Uf {
    type V = Seq<int>;

    /// The partition, each element mapped to the least member of its class.
    closed spec fn view(&self) -> Seq<int> {
        self.classes@
    }
}

impl Uf {
    /// The parent links form trees, one per class, and every root knows the size
    /// of its class.
    pub closed spec fn wf(&self) -> bool {
        let n = self.parent@.len();
        let c = self.classes@;
        &&& self.size@.len() == n
        &&& self.depth@.len() == n
        &&& c.len() == n
        &&& is_classes(c)
        &&& forall|i: int|
            #![trigger self.parent@[i]]
            0 <= i < n ==> {
                &&& self.parent@[i] < n
                &&& c[self.parent@[i] as int] == c[i]
                &&& self.parent@[i] != i ==> self.depth@[self.parent@[i] as int] < self.depth@[i]
            }
        &&& forall|i: int, j: int|
            #![trigger self.parent@[i], self.parent@[j]]
            0 <= i < n && 0 <= j < n && self.parent@[i] == i && self.parent@[j] == j && c[i] == c[j]
                ==> i == j
        &&& forall|i: int|
            #![trigger self.size@[i]]
            0 <= i < n && self.parent@[i] == i ==> self.size@[i] == members(c, c[i], n as int)
    }

    /// The partition into `n` single elements.
    pub fn new(n: usize) -> (uf: Uf)
        ensures
            uf.wf(),
            uf@ == singletons(n as nat),
            forall|i: int| 0 <= i < n ==> #[trigger] uf.root_of(i) == i,
            forall|i: int| 0 <= i < n ==> #[trigger] uf.size_at(i) == 1,
    {
        let mut parent: Vec<usize> = Vec::new();
        let mut size: Vec<usize> = Vec::new();
        let mut i: usize = 0;
        while i < n
            invariant
                i <= n,
                parent@.len() == i,
                size@.len() == i,
                forall|k: int| 0 <= k < i ==> parent@[k] == k,
                forall|k: int| 0 <= k < i ==> size@[k] == 1,
            decreases n - i,
        {
            parent.push(i);
            size.push(1);
            i += 1;
        }
        let ghost c = singletons(n as nat);
        proof {
            assert forall|v: int| 0 <= v < n implies members(c, v, n as int) == 1 by {
                singleton_members(n as nat, v, n as int);
            }
        }
        let uf = Uf {
            parent,
            size,
            depth: Ghost(Seq::new(n as nat, |i: int| 0nat)),
            classes: Ghost(c),
        };
        proof {
            assert forall|i: int| 0 <= i < n implies #[trigger] uf.root_of(i) == i by {
                uf.one_root(i);
                assert(uf.is_root(i));
            }
        }
        uf
    }

    /// Whether `i` is the root of its class.
    pub closed spec fn is_root(&self, i: int) -> bool {
        0 <= i < self.parent@.len() && self.parent@[i] == i
    }

    /// The root of the class of `x`.
    pub open spec fn root_of(&self, x: int) -> int {
        choose|r: int| #[trigger] self.is_root(r) && self@[r] == self@[x]
    }

    /// The size that is kept at `i`.
    pub closed spec fn size_at(&self, i: int) -> int {
        self.size@[i] as int
    }

    /// Every class has exactly one root, which keeps the number of its members.
    pub proof fn one_root(&self, x: int)
        requires
            self.wf(),
            0 <= x < self@.len(),
        ensures
            0 <= self.root_of(x) < self@.len(),
            self.is_root(self.root_of(x)),
            self@[self.root_of(x)] == self@[x],
            forall|r: int| #[trigger]
                self.is_root(r) && self@[r] == self@[x] ==> r == self.root_of(x),
            self.size_at(self.root_of(x)) == members(self@, self@[x], self@.len() as int),
    {
        self.has_root(x);
        let r = self.root_of(x);
        assert(self.parent@[r] == r);
        assert(self.size@[r] == members(self.classes@, self.classes@[r], self.parent@.len() as int));
        assert forall|q: int| #[trigger] self.is_root(q) && self@[q] == self@[x] implies q == r by {
            assert(self.parent@[q] == q);
        }
    }

    proof fn has_root(&self, x: int)
        requires
            self.wf(),
            0 <= x < self@.len(),
        ensures
            exists|r: int| #[trigger] self.is_root(r) && self@[r] == self@[x],
        decreases self.depth@[x],
    {
        let p = self.parent@[x] as int;
        if p == x {
            assert(self.is_root(x));
        } else {
            self.has_root(p);
            let r = choose|r: int| #[trigger] self.is_root(r) && self@[r] == self@[p];
            assert(self.is_root(r) && self@[r] == self@[x]);
        }
    }

    /// Two elements have the same root exactly when they share a class, and a root
    /// is its own root.
    pub proof fn roots_tell_classes(&self, i: int, j: int)
        requires
            self.wf(),
            0 <= i < self@.len(),
            0 <= j < self@.len(),
        ensures
            self.root_of(i) == self.root_of(j) <==> self@[i] == self@[j],
            self.root_of(self.root_of(i)) == self.root_of(i),
            self.is_root(i) <==> self.root_of(i) == i,
    {
        self.one_root(i);
        self.one_root(j);
        self.one_root(self.root_of(i));
    }

    /// Elements get the same class number exactly when they have the same root;
    /// numbers appear in order, each at most one more than all before it, and their
    /// count is one more than the greatest.
    pub proof fn numbers_tell_roots(&self, i: int, j: int)
        requires
            self.wf(),
            0 <= i < self@.len(),
            0 <= j < self@.len(),
        ensures
            class_number(self@, i) == class_number(self@, j) <==> self.root_of(i)
                == self.root_of(j),
            class_number(self@, 0) == 0,
            class_number(self@, i) < class_count(self@),
            class_number(self@, i) > 0 ==> exists|e: int|
                0 <= e < i && #[trigger] class_number(self@, e) + 1 == class_number(self@, i),
            exists|e: int|
                0 <= e < self@.len() && #[trigger] class_number(self@, e) + 1 == class_count(
                    self@,
                ),
    {
        let c = self@;
        self.roots_tell_classes(i, j);
        class_numbers_dense(c, i, j);
        assert(c[0] == 0);
        assert(c[c[i]] == c[i] && c[i] <= i);
        leaders_monotone(c, 1, c.len() as int);
        assert(leaders(c, 1) == leaders(c, 0) + 1);
        let last = class_number_attained(c, (class_count(c) - 1) as nat);
        assert(class_number(c, last) + 1 == class_count(c));
        if class_number(c, i) > 0 {
            let e = class_number_attained(c, (class_number(c, i) - 1) as nat);
            class_numbers_dense(c, e, i);
            class_numbers_dense(c, i, e);
            assert(e < i);
            assert(class_number(c, e) + 1 == class_number(c, i));
        }
    }

    /// Number of elements.
    pub fn len(&self) -> (n: usize)
        requires
            self.wf(),
        ensures
            n == self@.len(),
    {
        self.parent.len()
    }

    /// The root of `x`: the same for two elements exactly when they share a class.
    pub fn find(&mut self, x: usize) -> (root: usize)
        requires
            old(self).wf(),
            x < old(self)@.len(),
        ensures
            final(self).wf(),
            final(self)@ == old(self)@,
            root < final(self)@.len(),
            final(self)@[root as int] == final(self)@[x as int],
            final(self).is_root(root as int),
            root == old(self).root_of(x as int),
            root == final(self).root_of(x as int),
            forall|i: int| final(self).is_root(i) == old(self).is_root(i),
            forall|i: int| final(self).size_at(i) == old(self).size_at(i),
            forall|i: int|
                0 <= i < final(self)@.len() ==> #[trigger] final(self).root_of(i)
                    == old(self).root_of(i),
    {
        let mut cur: usize = x;
        while self.parent[cur] != cur
            invariant
                self.wf(),
                self@ == old(self)@,
                cur < self@.len(),
                x < self@.len(),
                self@[cur as int] == self@[x as int],
                forall|i: int| self.is_root(i) == old(self).is_root(i),
                old(self).wf(),
                self.size@ == old(self).size@,
            decreases self.depth@[cur as int],
        {
            let p = self.parent[cur];
            let pp = self.parent[p];
            proof {
                assert(self.classes@[pp as int] == self.classes@[cur as int]);
                if pp != p {
                    assert(self.depth@[pp as int] < self.depth@[p as int]);
                }
            }
            self.parent.set(cur, pp);
            cur = pp;
        }
        proof {
            assert(self.is_root(cur as int));
            self.one_root(x as int);
            assert forall|i: int| 0 <= i < self@.len() implies #[trigger] self.root_of(i) == old(
                self,
            ).root_of(i) by {
                self.one_root(i);
                old(self).one_root(i);
                assert(self.is_root(old(self).root_of(i)));
            }
        }
        cur
    }

    /// Whether `a` and `b` are in one class.
    pub fn same(&mut self, a: usize, b: usize) -> (r: bool)
        requires
            old(self).wf(),
            a < old(self)@.len(),
            b < old(self)@.len(),
        ensures
            final(self).wf(),
            final(self)@ == old(self)@,
            r == (old(self)@[a as int] == old(self)@[b as int]),
            forall|i: int|
                0 <= i < final(self)@.len() ==> #[trigger] final(self).root_of(i)
                    == old(self).root_of(i),
            forall|i: int| final(self).size_at(i) == old(self).size_at(i),
    {
        let ra = self.find(a);
        let rb = self.find(b);
        proof {
            self.roots_tell_classes(a as int, b as int);
        }
        ra == rb
    }

    /// The root that is left when the classes of `a` and `b` become one: that of the
    /// larger class, of `a`'s where both are equally large.
    pub open spec fn winner(&self, a: int, b: int) -> int {
        if self.size_at(self.root_of(a)) < self.size_at(self.root_of(b)) {
            self.root_of(b)
        } else {
            self.root_of(a)
        }
    }

    /// Joins the classes of `a` and `b`. The larger class keeps its root, and the
    /// root keeps the size of both.
    pub fn union(&mut self, a: usize, b: usize)
        requires
            old(self).wf(),
            a < old(self)@.len(),
            b < old(self)@.len(),
        ensures
            final(self).wf(),
            final(self)@ == join(old(self)@, a as int, b as int),
            forall|i: int|
                0 <= i < final(self)@.len() ==> #[trigger] final(self).root_of(i) == if old(
                    self,
                ).root_of(i) == old(self).root_of(a as int) || old(self).root_of(i) == old(
                    self,
                ).root_of(b as int) {
                    old(self).winner(a as int, b as int)
                } else {
                    old(self).root_of(i)
                },
            forall|i: int|
                0 <= i < final(self)@.len() ==> #[trigger] final(self).size_at(i) == if i == old(
                    self,
                ).winner(a as int, b as int) && old(self).root_of(a as int) != old(self).root_of(
                    b as int,
                ) {
                    old(self).size_at(old(self).root_of(a as int)) + old(self).size_at(
                        old(self).root_of(b as int),
                    )
                } else {
                    old(self).size_at(i)
                },
    {
        let mut ra = self.find(a);
        let mut rb = self.find(b);
        let ghost c = self.classes@;
        if ra == rb {
            proof {
                assert(join(c, a as int, b as int) =~= c);
            }
            return;
        }
        if self.size[ra] < self.size[rb] {
            let t = ra;
            ra = rb;
            rb = t;
        }
        proof {
            assert forall|i: int| 0 <= i < c.len() implies (c[i] == c[a as int] <==> old(
                self,
            ).root_of(i) == old(self).root_of(a as int)) && (c[i] == c[b as int] <==> old(
                self,
            ).root_of(i) == old(self).root_of(b as int)) by {
                old(self).roots_tell_classes(i, a as int);
                old(self).roots_tell_classes(i, b as int);
            }
            assert(ra == old(self).winner(a as int, b as int));
            assert(self.parent@[ra as int] == ra);
            assert(self.parent@[rb as int] == rb);
            assert(c[ra as int] != c[rb as int]);
            members_disjoint(c, c[ra as int], c[rb as int], c.len() as int);
            join_is_classes(c, a as int, b as int);
        }
        let n = self.parent.len();
        proof {
            assert(self.size@[ra as int] == members(c, c[ra as int], n as int));
            assert(self.size@[rb as int] == members(c, c[rb as int], n as int));
        }
        let total = self.size[ra] + self.size[rb];
        let ghost before = *self;
        self.parent.set(rb, ra);
        self.size.set(ra, total);
        proof {
            let n = c.len() as int;
            let d = join(c, a as int, b as int);
            let gone = c[rb as int];
            self.classes@ = d;
            self.depth@ = Seq::new(
                n as nat,
                |i: int|
                    if c[i] == gone {
                        before.depth@[i] + before.depth@[ra as int] + 1
                    } else {
                        before.depth@[i]
                    },
            );
            assert forall|i: int| #![trigger self.parent@[i]] 0 <= i < n implies {
                &&& self.parent@[i] < n
                &&& d[self.parent@[i] as int] == d[i]
                &&& self.parent@[i] != i ==> self.depth@[self.parent@[i] as int] < self.depth@[i]
            } by {
                let p = before.parent@[i];
                assert(p < n && c[p as int] == c[i]);
                if i == rb {
                    assert(self.parent@[i] == ra);
                }
            }
            assert forall|i: int, j: int|
                #![trigger self.parent@[i], self.parent@[j]]
                0 <= i < n && 0 <= j < n && self.parent@[i] == i && self.parent@[j] == j && d[i]
                    == d[j] implies i == j by {
                assert(i != rb && j != rb);
                assert(before.parent@[i] == i && before.parent@[j] == j);
                if c[i] != c[j] {
                    assert(c[i] == gone || c[j] == gone);
                    if c[i] == gone {
                        assert(before.parent@[rb as int] == rb);
                    }
                }
            }
            assert forall|i: int|
                #![trigger self.size@[i]]
                0 <= i < n && self.parent@[i] == i implies self.size@[i] == members(
                d,
                d[i],
                n,
            ) by {
                assert(i != rb);
                assert(before.parent@[i] == i);
                assert(before.size@[i] == members(c, c[i], n));
                members_of_join(c, a as int, b as int, d[i], n);
                if i == ra {
                    assert(d[i] == d[a as int]);
                    assert(before.size@[rb as int] == members(c, c[rb as int], n));
                } else {
                    if c[i] == c[ra as int] {
                        assert(before.parent@[ra as int] == ra);
                    }
                    if c[i] == c[rb as int] {
                        assert(before.parent@[rb as int] == rb);
                    }
                }
            }
            assert(self.wf());
            assert forall|i: int| 0 <= i < n implies #[trigger] self.root_of(i) == if c[i] == c[a as int]
                || c[i] == c[b as int] {
                ra as int
            } else {
                before.root_of(i)
            } by {
                self.one_root(i);
                before.one_root(i);
                before.roots_tell_classes(i, a as int);
                before.roots_tell_classes(i, b as int);
                assert(self.is_root(ra as int));
                if c[i] != c[a as int] && c[i] != c[b as int] {
                    assert(self.is_root(before.root_of(i)));
                }
            }
        }
    }

    /// A union brings together exactly the classes of `a` and `b`, told by roots.
    pub proof fn union_joins_roots(before: &Uf, after: &Uf, a: int, b: int, i: int, j: int)
        requires
            before.wf(),
            after.wf(),
            after@ == join(before@, a, b),
            0 <= a < before@.len(),
            0 <= b < before@.len(),
            0 <= i < before@.len(),
            0 <= j < before@.len(),
        ensures
            after.root_of(i) == after.root_of(j) <==> {
                ||| before.root_of(i) == before.root_of(j)
                ||| before.root_of(i) == before.root_of(a) && before.root_of(j) == before.root_of(b)
                ||| before.root_of(i) == before.root_of(b) && before.root_of(j) == before.root_of(a)
            },
            before.root_of(a) == before.root_of(b) ==> after@ == before@,
    {
        join_is_classes(before@, a, b);
        after.roots_tell_classes(i, j);
        before.roots_tell_classes(i, j);
        before.roots_tell_classes(i, a);
        before.roots_tell_classes(i, b);
        before.roots_tell_classes(j, a);
        before.roots_tell_classes(j, b);
        before.roots_tell_classes(a, b);
        if before@[a] == before@[b] {
            assert(join(before@, a, b) =~= before@);
        }
    }

    /// Numbers the classes `0, 1, ..` by first appearance; gives each element's
    /// number and how many classes there are.
    pub fn resolve(&mut self) -> (r: (Vec<usize>, usize))
        requires
            old(self).wf(),
        ensures
            final(self).wf(),
            final(self)@ == old(self)@,
            r.0@.len() == old(self)@.len(),
            forall|i: int|
                0 <= i < r.0@.len() ==> #[trigger] r.0@[i] == class_number(old(self)@, i),
            r.1 == class_count(old(self)@),
            forall|i: int|
                0 <= i < final(self)@.len() ==> #[trigger] final(self).root_of(i)
                    == old(self).root_of(i),
            forall|i: int| final(self).size_at(i) == old(self).size_at(i),
    {
        let n = self.parent.len();
        let mut root_to_new: Vec<Option<usize>> = Vec::new();
        let mut k: usize = 0;
        while k < n
            invariant
                k <= n,
                root_to_new@.len() == k,
                forall|j: int| 0 <= j < k ==> root_to_new@[j] is None,
            decreases n - k,
        {
            root_to_new.push(None);
            k += 1;
        }
        let ghost c = self@;
        let mut map: Vec<usize> = Vec::new();
        let mut next: usize = 0;
        let mut i: usize = 0;
        while i < n
            invariant
                self.wf(),
                self@ == c,
                c == old(self)@,
                n == c.len(),
                forall|i: int| 0 <= i < n ==> #[trigger] self.root_of(i) == old(self).root_of(i),
                forall|i: int| self.size_at(i) == old(self).size_at(i),
                i <= n,
                map@.len() == i,
                root_to_new@.len() == n,
                next == leaders(c, i as int),
                next <= i,
                forall|j: int| 0 <= j < i ==> #[trigger] map@[j] == class_number(c, j),
                forall|q: int|
                    #![trigger root_to_new@[q]]
                    0 <= q < n && (c[q] < i || root_to_new@[q] is Some) ==> {
                        &&& self.is_root(q) ==> root_to_new@[q] is Some
                        &&& root_to_new@[q] is Some ==> c[q] < i && root_to_new@[q]->Some_0
                            == leaders(c, c[q])
                    },
            decreases n - i,
        {
            let root = self.find(i);
            proof {
                assert(c[i as int] <= i);
                assert(c[c[i as int]] == c[i as int]);
            }
            let number = match root_to_new[root] {
                Some(v) => v,
                None => {
                    proof {
                        assert(c[i as int] == i);
                    }
                    root_to_new.set(root, Some(next));
                    let v = next;
                    next += 1;
                    v
                },
            };
            map.push(number);
            proof {
                assert(number == leaders(c, c[i as int]));
            }
            i += 1;
        }
        (map, next)
    }
}

proof fn singleton_members(n: nat, v: int, k: int)
    requires
        0 <= k <= n,
        0 <= v < n,
    ensures
        members(singletons(n), v, k) == if v < k { 1nat } else { 0nat },
    decreases k,
{
    if k > 0 {
        singleton_members(n, v, k - 1);
    }
}

} // verus!
