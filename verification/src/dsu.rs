use vstd::prelude::*;

verus! {

/// The parent chains are well formed: every parent is in range and sits
/// strictly closer to its root in the ghost depth measure.
pub open spec fn chains_wf(p: Seq<usize>, d: Seq<nat>) -> bool {
    &&& d.len() == p.len()
    &&& forall|v: int|
        0 <= v < p.len() ==> (#[trigger] p[v]) < p.len() && (p[v] == v || d[p[v] as int] < d[v])
}

/// The representative that the parent chain of `v` reaches.
pub open spec fn root_from(p: Seq<usize>, d: Seq<nat>, v: int) -> int
    decreases (if 0 <= v < d.len() {
        d[v]
    } else {
        0
    }),
{
    if 0 <= v < p.len() && v < d.len() && p[v] != v && (p[v] as int) < p.len() && (p[v] as int)
        < d.len() && d[p[v] as int] < d[v] {
        root_from(p, d, p[v] as int)
    } else {
        v
    }
}

/// The representative is a fixed point of the parent array, no deeper than
/// the start of the chain.
proof fn lemma_root_props(p: Seq<usize>, d: Seq<nat>, v: int)
    requires
        chains_wf(p, d),
        0 <= v < p.len(),
    ensures
        0 <= root_from(p, d, v) < p.len(),
        p[root_from(p, d, v)] == root_from(p, d, v),
        root_from(p, d, v) != v ==> d[root_from(p, d, v)] < d[v],
    decreases d[v],
{
    if p[v] != v {
        lemma_root_props(p, d, p[v] as int);
    }
}

/// Pointing a chain member straight at its own representative changes no
/// representative.
proof fn lemma_compress_noop(p: Seq<usize>, d: Seq<nat>, x: int, rt: int, y: int)
    requires
        chains_wf(p, d),
        0 <= x < p.len(),
        p[x] != x,
        root_from(p, d, x) == rt,
        0 <= y < p.len(),
    ensures
        chains_wf(p.update(x, rt as usize), d),
        root_from(p.update(x, rt as usize), d, y) == root_from(p, d, y),
    decreases d[y],
{
    lemma_root_props(p, d, x);
    let p2 = p.update(x, rt as usize);
    assert(chains_wf(p2, d)) by {
        assert forall|v: int|
            0 <= v < p2.len() implies (#[trigger] p2[v]) < p2.len() && (p2[v] == v || d[
            p2[v] as int] < d[v]) by {
            if v == x {
                assert(d[rt] < d[x]);
            }
        }
    }
    if y == x {
        assert(p2[x] == rt);
        if rt == x {
        } else {
            assert(root_from(p2, d, y) == root_from(p2, d, rt));
            lemma_compress_noop(p, d, x, rt, rt);
        }
    } else if p[y] == y {
    } else {
        lemma_compress_noop(p, d, x, rt, p[y] as int);
    }
}

/// Appending a fresh self-rooted node keeps the chains well formed and
/// leaves every old chain's representative unchanged.
proof fn lemma_push_wf(p: Seq<usize>, d: Seq<nat>)
    requires
        chains_wf(p, d),
        p.len() <= usize::MAX,
    ensures
        chains_wf(p.push(p.len() as usize), d.push(0nat)),
{
    let p2 = p.push(p.len() as usize);
    let d2 = d.push(0nat);
    assert forall|v: int|
        0 <= v < p2.len() implies (#[trigger] p2[v]) < p2.len() && (p2[v] == v || d2[p2[v] as int]
        < d2[v]) by {
        if v < p.len() {
            assert(p2[v] == p[v]);
        } else {
            assert(p2[v] == v);
        }
    }
}

/// The appended node is not on any old chain, so old representatives stay.
proof fn lemma_root_push(p: Seq<usize>, d: Seq<nat>, y: int)
    requires
        chains_wf(p, d),
        p.len() <= usize::MAX,
        0 <= y < p.len(),
    ensures
        root_from(p.push(p.len() as usize), d.push(0nat), y) == root_from(p, d, y),
    decreases d[y],
{
    lemma_push_wf(p, d);
    if p[y] != y {
        lemma_root_push(p, d, p[y] as int);
    }
}

/// Turning one offset into its own root leaves every chain that avoided it
/// alone, and reroots a chain through it at that offset.
proof fn lemma_reroot(p: Seq<usize>, d: Seq<nat>, w: usize, y: int)
    requires
        chains_wf(p, d),
        (w as int) < p.len(),
        0 <= y < p.len(),
    ensures
        chains_wf(p.update(w as int, w), d),
        root_from(p, d, y) != root_from(p, d, w as int) ==> root_from(p.update(w as int, w), d, y)
            == root_from(p, d, y),
        root_from(p.update(w as int, w), d, y) == root_from(p, d, y) || root_from(
            p.update(w as int, w),
            d,
            y,
        ) == w,
    decreases d[y],
{
    let p2 = p.update(w as int, w);
    assert(chains_wf(p2, d)) by {
        assert forall|v: int|
            0 <= v < p2.len() implies (#[trigger] p2[v]) < p2.len() && (p2[v] == v || d[
            p2[v] as int] < d[v]) by {
            if v != w as int {
                assert(p2[v] == p[v]);
            }
        }
    }
    if y == w as int {
        assert(root_from(p2, d, y) == w);
    } else if p[y] == y {
    } else {
        assert(root_from(p, d, y) == root_from(p, d, p[y] as int));
        lemma_reroot(p, d, w, p[y] as int);
        assert(p2[y] == p[y]);
        assert(root_from(p2, d, y) == root_from(p2, d, p[y] as int));
    }
}

/// Linking root `b` under root `a`, with the depths of `b`'s class lifted
/// above `a`, sends `b`'s class to `a` and leaves every other class alone.
proof fn lemma_link_roots(p: Seq<usize>, d: Seq<nat>, a: int, b: int, d2: Seq<nat>, y: int)
    requires
        chains_wf(p, d),
        0 <= a < p.len(),
        0 <= b < p.len(),
        a != b,
        p[a] == a,
        p[b] == b,
        d2 == Seq::new(d.len(), |x: int| if root_from(p, d, x) == b {
            (d[x] + d[a] + 1) as nat
        } else {
            d[x]
        }),
        0 <= y < p.len(),
    ensures
        chains_wf(p.update(b, a as usize), d2),
        root_from(p.update(b, a as usize), d2, y) == (if root_from(p, d, y) == b {
            a
        } else {
            root_from(p, d, y)
        }),
    decreases d[y],
{
    let p2 = p.update(b, a as usize);
    assert(chains_wf(p2, d2)) by {
        assert forall|v: int|
            0 <= v < p2.len() implies (#[trigger] p2[v]) < p2.len() && (p2[v] == v || d2[
            p2[v] as int] < d2[v]) by {
            if v == b {
                assert(root_from(p, d, a) == a);
                assert(root_from(p, d, b) == b);
                assert(d2[a] == d[a] && d2[b] == d[b] + d[a] + 1);
            } else if p[v] != v {
                assert(root_from(p, d, v) == root_from(p, d, p[v] as int));
            }
        }
    }
    if y == b {
        assert(p2[b] == a);
        assert(root_from(p, d, a) == a);
        assert(root_from(p, d, b) == b);
        assert(d2[a] == d[a] && d2[b] == d[b] + d[a] + 1);
        assert(root_from(p2, d2, b) == root_from(p2, d2, a));
        assert(p2[a] == a);
        assert(root_from(p2, d2, a) == a);
    } else if p[y] == y {
        assert(p2[y] == y);
        assert(root_from(p2, d2, y) == y);
    } else {
        assert(root_from(p, d, y) == root_from(p, d, p[y] as int));
        lemma_link_roots(p, d, a, b, d2, p[y] as int);
        assert(root_from(p, d, p[y] as int) == root_from(p, d, y));
        assert(d2[p[y] as int] < d2[y]) by {
            let py = p[y] as int;
            assert(root_from(p, d, py) == root_from(p, d, y));
            assert(d2[py] == (if root_from(p, d, py) == b {
                (d[py] + d[a] + 1) as nat
            } else {
                d[py]
            }));
        }
        assert(root_from(p2, d2, y) == root_from(p2, d2, p[y] as int));
    }
}

/// Two offsets lie in the same class of the partition.
pub open spec fn same_class(s: DSUNum, x: int, y: int) -> bool {
    s.spec_root(x) == s.spec_root(y)
}

/// DSU over the offsets `0..n`, with union by the stored ranks and path
/// compression; `make_set` turns an offset into its own singleton root.
pub struct DSUNum {
    parent: Vec<usize>,
    ranks: Vec<usize>,
    depth: Ghost<Seq<nat>>,
}

impl DSUNum {
    /// The parent forest and its rank table are consistent.
    pub closed spec fn wf(self) -> bool {
        &&& chains_wf(self.parent@, self.depth@)
        &&& self.ranks@.len() == self.parent@.len()
    }

    /// The number of offsets the structure covers.
    pub closed spec fn spec_len(self) -> int {
        self.parent@.len() as int
    }

    /// The representative of `v`.
    pub closed spec fn spec_root(self, v: int) -> int {
        root_from(self.parent@, self.depth@, v)
    }

    /// A structure for the offsets `0..=n`, all initially chained to offset
    /// zero until `make_set` claims them.
    pub fn new(n: usize) -> (r: Self)
        requires
            n < usize::MAX,
        ensures
            r.wf(),
            r.spec_len() == n + 1,
    {
        let mut parent: Vec<usize> = Vec::new();
        let mut ranks: Vec<usize> = Vec::new();
        let mut i: usize = 0;
        while i < n + 1
            invariant
                n < usize::MAX,
                parent@.len() == i,
                ranks@.len() == i,
                i <= n + 1,
                forall|t: int| 0 <= t < i ==> (#[trigger] parent@[t]) == 0,
            decreases n + 1 - i,
        {
            parent.push(0);
            ranks.push(1);
            i += 1;
        }
        let ghost d = Seq::new(parent@.len(), |x: int| if x == 0 {
            0nat
        } else {
            1nat
        });
        let r = DSUNum { parent, ranks, depth: Ghost(d) };
        proof {
            assert(chains_wf(r.parent@, d));
        }
        r
    }

    /// Makes the offset its own root: a chain that avoided the offset keeps
    /// its representative, and any other chain is rerooted at the offset.
    pub fn make_set(&mut self, value: usize)
        requires
            old(self).wf(),
            (value as int) < old(self).spec_len(),
        ensures
            final(self).wf(),
            final(self).spec_len() == old(self).spec_len(),
            final(self).spec_root(value as int) == value,
            forall|x: int|
                0 <= x < old(self).spec_len() && old(self).spec_root(x) != old(self).spec_root(
                    value as int,
                ) ==> final(self).spec_root(x) == old(self).spec_root(x),
            forall|x: int|
                0 <= x < old(self).spec_len() ==> final(self).spec_root(x) == old(self).spec_root(x)
                    || final(self).spec_root(x) == value,
    {
        let ghost p = self.parent@;
        let ghost dd = self.depth@;
        self.parent[value] = value;
        proof {
            assert(self.parent@ =~= p.update(value as int, value));
            lemma_reroot(p, dd, value, value as int);
            assert forall|x: int|
                0 <= x < p.len() && root_from(p, dd, x) != root_from(p, dd, value as int) implies
                root_from(self.parent@, dd, x) == root_from(p, dd, x) by {
                lemma_reroot(p, dd, value, x);
            }
            assert forall|x: int|
                0 <= x < p.len() implies root_from(self.parent@, dd, x) == root_from(p, dd, x)
                || root_from(self.parent@, dd, x) == value as int by {
                lemma_reroot(p, dd, value, x);
            }
        }
    }

    /// The representative of the offset, compressing the chain on the way.
    pub fn find_set(&mut self, value: usize) -> (r: usize)
        requires
            old(self).wf(),
            (value as int) < old(self).spec_len(),
        ensures
            final(self).wf(),
            final(self).spec_len() == old(self).spec_len(),
            r == old(self).spec_root(value as int),
            (r as int) < old(self).spec_len(),
            final(self).spec_root(r as int) == r,
            forall|x: int|
                0 <= x < old(self).spec_len() ==> final(self).spec_root(x) == old(self).spec_root(
                    x,
                ),
    {
        let ghost d = self.depth@;
        let mut cur = value;
        while self.parent[cur] != cur
            invariant
                self.wf(),
                self.depth@ == d,
                self.parent@ == old(self).parent@,
                self.ranks@ == old(self).ranks@,
                (cur as int) < self.spec_len(),
                root_from(self.parent@, d, cur as int) == root_from(self.parent@, d, value as int),
            decreases d[cur as int],
        {
            cur = self.parent[cur];
        }
        let root = cur;
        proof {
            assert(root_from(self.parent@, d, root as int) == root as int);
        }
        proof {
            assert(root_from(self.parent@, d, root as int) == root as int);
        }
        let mut walk = value;
        while self.parent[walk] != walk
            invariant
                self.wf(),
                self.depth@ == d,
                self.parent@.len() == old(self).parent@.len(),
                self.ranks@ == old(self).ranks@,
                (walk as int) < self.spec_len(),
                (root as int) < self.spec_len(),
                self.parent@[root as int] == root,
                root_from(self.parent@, d, walk as int) == root as int,
                forall|x: int|
                    0 <= x < self.spec_len() ==> root_from(self.parent@, d, x) == root_from(
                        old(self).parent@,
                        d,
                        x,
                    ),
            decreases d[walk as int],
        {
            let nxt = self.parent[walk];
            let ghost pbefore = self.parent@;
            self.parent[walk] = root;
            proof {
                assert forall|y: int|
                    0 <= y < self.parent@.len() implies root_from(self.parent@, d, y)
                        == root_from(pbefore, d, y) && chains_wf(self.parent@, d) by {
                    lemma_compress_noop(pbefore, d, walk as int, root as int, y);
                }
                assert(root_from(self.parent@, d, nxt as int) == root as int) by {
                    assert(root_from(pbefore, d, walk as int) == root_from(
                        pbefore,
                        d,
                        nxt as int,
                    ));
                }
            }
            walk = nxt;
        }
        proof {
            assert(self.parent@[root as int] == root);
            assert(root_from(self.parent@, d, root as int) == root as int);
        }
        root
    }

    /// Joins the two classes; the shallower-ranked root is attached under
    /// the other, as the rank rule dictates.
    pub fn union_sets(&mut self, first: usize, second: usize)
        requires
            old(self).wf(),
            (first as int) < old(self).spec_len(),
            (second as int) < old(self).spec_len(),
        ensures
            final(self).wf(),
            final(self).spec_len() == old(self).spec_len(),
            forall|x: int, y: int|
                0 <= x < old(self).spec_len() && 0 <= y < old(self).spec_len() ==> (same_class(
                    *final(self),
                    x,
                    y,
                ) <==> (same_class(*old(self), x, y) || (same_class(*old(self), x, first as int)
                    && same_class(*old(self), y, second as int)) || (same_class(
                    *old(self),
                    x,
                    second as int,
                ) && same_class(*old(self), y, first as int)))),
    {
        let a = self.find_set(first);
        let b = self.find_set(second);
        proof {
            assert(self.spec_root(a as int) == a as int);
            assert(self.spec_root(b as int) == b as int);
            lemma_root_props(self.parent@, self.depth@, a as int);
            lemma_root_props(self.parent@, self.depth@, b as int);
        }
        if a != b {
            let ghost mid = *self;
            if self.ranks[a] < self.ranks[b] {
                self.link_under(b, a);
            } else {
                self.link_under(a, b);
            }
            proof {
                assert forall|x: int, y: int|
                    0 <= x < self.spec_len() && 0 <= y < self.spec_len() implies ((self.spec_root(
                        x,
                    ) == self.spec_root(y)) <==> (mid.spec_root(x) == mid.spec_root(y) || (
                    mid.spec_root(x) == a as int && mid.spec_root(y) == b as int) || (
                    mid.spec_root(x) == b as int && mid.spec_root(y) == a as int))) by {
                    lemma_root_props(mid.parent@, mid.depth@, x);
                    lemma_root_props(mid.parent@, mid.depth@, y);
                }
            }
        }
    }

    /// Attaches root `child` under root `into` and merges the ranks.
    fn link_under(&mut self, child: usize, into: usize)
        requires
            old(self).wf(),
            (child as int) < old(self).spec_len(),
            (into as int) < old(self).spec_len(),
            child != into,
            old(self).parent@[child as int] == child,
            old(self).parent@[into as int] == into,
        ensures
            final(self).wf(),
            final(self).spec_len() == old(self).spec_len(),
            forall|y: int|
                0 <= y < old(self).spec_len() ==> final(self).spec_root(y) == (if old(
                    self,
                ).spec_root(y) == child as int {
                    into as int
                } else {
                    old(self).spec_root(y)
                }),
    {
        let ghost p = self.parent@;
        let ghost d = self.depth@;
        let ghost d2 = Seq::new(
            d.len(),
            |x: int|
                if root_from(p, d, x) == child as int {
                    (d[x] + d[into as int] + 1) as nat
                } else {
                    d[x]
                },
        );
        let r1 = self.ranks[into];
        let r2 = self.ranks[child];
        let merged = if r1 <= usize::MAX - r2 {
            r1 + r2
        } else {
            usize::MAX
        };
        self.parent[child] = into;
        self.ranks[child] = merged;
        proof {
            self.depth@ = d2;
            assert forall|y: int|
                0 <= y < self.parent@.len() implies chains_wf(self.parent@, d2) && root_from(
                self.parent@,
                d2,
                y,
            ) == (if root_from(p, d, y) == child as int {
                into as int
            } else {
                root_from(p, d, y)
            }) by {
                lemma_link_roots(p, d, into as int, child as int, d2, y);
            }
        }
    }
}


/// Two keys lie in the same class of the keyed partition.
pub open spec fn dsu_same(s: DSU, x: i32, y: i32) -> bool {
    s.spec_find(x) == s.spec_find(y)
}

/// DSU over arbitrary keys: each key is registered in a slot registry, and
/// the slots carry the union-by-rank forest with path compression.
pub struct DSU {
    keys: Vec<i32>,
    slots: std::collections::BTreeMap<i32, usize>,
    parent: Vec<usize>,
    ranks: Vec<usize>,
    depth: Ghost<Seq<nat>>,
}

impl DSU {
    pub closed spec fn wf(self) -> bool {
        &&& chains_wf(self.parent@, self.depth@)
        &&& self.ranks@.len() == self.parent@.len()
        &&& self.keys@.len() == self.parent@.len()
        &&& (forall|k: i32|
            #[trigger] self.slots@.contains_key(k) ==> (self.slots@[k] as int)
                < self.keys@.len() && self.keys@[self.slots@[k] as int] == k)
        &&& (forall|i: int|
            0 <= i < self.keys@.len() ==> self.slots@.contains_key(#[trigger] self.keys@[i])
                && self.slots@[self.keys@[i]] == i)
    }

    /// The key is registered.
    pub closed spec fn has(self, value: i32) -> bool {
        self.slots@.contains_key(value)
    }

    /// The representative key of a registered key's class.
    pub closed spec fn spec_find(self, value: i32) -> i32 {
        self.keys@[root_from(self.parent@, self.depth@, self.slots@[value] as int)]
    }

    pub fn new() -> (r: Self)
        ensures
            r.wf(),
            forall|k: i32| !r.has(k),
    {
        DSU {
            keys: Vec::new(),
            slots: std::collections::BTreeMap::new(),
            parent: Vec::new(),
            ranks: Vec::new(),
            depth: Ghost(Seq::empty()),
        }
    }

    /// Registers the key as its own singleton class; a registered key is
    /// left as it is, and no registered key changes its representative.
    pub fn make_set(&mut self, value: i32)
        requires
            old(self).wf(),
        ensures
            final(self).wf(),
            forall|k: i32| final(self).has(k) <==> old(self).has(k) || k == value,
            !old(self).has(value) ==> final(self).spec_find(value) == value,
            old(self).has(value) ==> *final(self) == *old(self),
            forall|k: i32|
                old(self).has(k) ==> final(self).spec_find(k) == old(self).spec_find(k),
    {
        broadcast use vstd::laws_cmp::group_laws_cmp;

        let ghost p = self.parent@;
        let ghost dd = self.depth@;
        if !self.slots.contains_key(&value) {
            let slot = self.keys.len();
            self.keys.push(value);
            self.slots.insert(value, slot);
            self.parent.push(slot);
            self.ranks.push(1);
            proof {
                self.depth@ = self.depth@.push(0nat);
                assert(self.parent@ =~= p.push(p.len() as usize));
                assert(self.depth@ =~= dd.push(0nat));
                lemma_push_wf(p, dd);
                assert(self.spec_find(value) == value) by {
                    assert(self.slots@[value] == p.len());
                    assert(self.parent@[p.len() as int] == p.len());
                    assert(root_from(self.parent@, self.depth@, p.len() as int) == p.len());
                }
                assert forall|k: i32| old(self).has(k) implies self.spec_find(k) == old(
                    self,
                ).spec_find(k) by {
                    let s = old(self).slots@[k] as int;
                    assert(0 <= s < p.len());
                    assert(k != value);
                    assert(self.slots@[k] == old(self).slots@[k]);
                    lemma_root_push(p, dd, s);
                    lemma_root_props(p, dd, s);
                    assert(self.keys@[root_from(p, dd, s)] == old(self).keys@[root_from(p, dd, s)]);
                }
            }
        }
    }

    /// The representative key of the class, or nothing for an unregistered
    /// key; the walked chain is compressed.
    pub fn find_set(&mut self, value: i32) -> (r: Option<i32>)
        requires
            old(self).wf(),
        ensures
            final(self).wf(),
            forall|k2: i32| final(self).has(k2) <==> old(self).has(k2),
            (r is Some) <==> old(self).has(value),
            r matches Some(k) ==> k == old(self).spec_find(value),
            forall|k2: i32|
                old(self).has(k2) ==> final(self).spec_find(k2) == old(self).spec_find(k2),
    {
        broadcast use vstd::laws_cmp::group_laws_cmp;

        let slot = match self.slots.get(&value) {
            Some(s) => *s,
            None => {
                return None;
            },
        };
        proof {
            assert(self.slots@.contains_key(value));
        }
        let root = self.find_slot(slot);
        Some(self.keys[root])
    }

    /// Slot-level find with path compression.
    fn find_slot(&mut self, slot: usize) -> (r: usize)
        requires
            old(self).wf(),
            (slot as int) < old(self).parent@.len(),
        ensures
            final(self).wf(),
            final(self).slots@ == old(self).slots@,
            final(self).keys@ == old(self).keys@,
            final(self).ranks@ == old(self).ranks@,
            final(self).parent@.len() == old(self).parent@.len(),
            final(self).depth@ == old(self).depth@,
            r == root_from(old(self).parent@, old(self).depth@, slot as int),
            (r as int) < old(self).parent@.len(),
            final(self).parent@[r as int] == r,
            forall|x: int|
                0 <= x < old(self).parent@.len() ==> root_from(
                    final(self).parent@,
                    final(self).depth@,
                    x,
                ) == root_from(old(self).parent@, old(self).depth@, x),
    {
        let ghost d = self.depth@;
        let mut cur = slot;
        while self.parent[cur] != cur
            invariant
                chains_wf(self.parent@, d),
                self.depth@ == d,
                self.parent@ == old(self).parent@,
                (cur as int) < self.parent@.len(),
                root_from(self.parent@, d, cur as int) == root_from(self.parent@, d, slot as int),
            decreases d[cur as int],
        {
            cur = self.parent[cur];
        }
        let root = cur;
        proof {
            assert(root_from(self.parent@, d, root as int) == root as int);
        }
        let mut walk = slot;
        while self.parent[walk] != walk
            invariant
                chains_wf(self.parent@, d),
                self.depth@ == d,
                self.parent@.len() == old(self).parent@.len(),
                self.keys@ == old(self).keys@,
                self.slots@ == old(self).slots@,
                self.ranks@ == old(self).ranks@,
                (walk as int) < self.parent@.len(),
                (root as int) < self.parent@.len(),
                self.parent@[root as int] == root,
                root_from(self.parent@, d, walk as int) == root as int,
                forall|x: int|
                    0 <= x < self.parent@.len() ==> root_from(self.parent@, d, x) == root_from(
                        old(self).parent@,
                        d,
                        x,
                    ),
                self.ranks@.len() == self.parent@.len(),
                self.keys@.len() == self.parent@.len(),
            decreases d[walk as int],
        {
            let nxt = self.parent[walk];
            let ghost pbefore = self.parent@;
            self.parent[walk] = root;
            proof {
                assert forall|y: int|
                    0 <= y < self.parent@.len() implies root_from(self.parent@, d, y)
                        == root_from(pbefore, d, y) && chains_wf(self.parent@, d) by {
                    lemma_compress_noop(pbefore, d, walk as int, root as int, y);
                }
                assert(root_from(self.parent@, d, nxt as int) == root as int) by {
                    assert(root_from(pbefore, d, walk as int) == root_from(
                        pbefore,
                        d,
                        nxt as int,
                    ));
                }
            }
            walk = nxt;
        }
        root
    }

    /// Joins the classes of two registered keys; unregistered keys join
    /// nothing.
    pub fn union_sets(&mut self, first: i32, second: i32)
        requires
            old(self).wf(),
        ensures
            final(self).wf(),
            forall|k2: i32| final(self).has(k2) <==> old(self).has(k2),
            !old(self).has(first) || !old(self).has(second) ==> forall|k2: i32|
                old(self).has(k2) ==> final(self).spec_find(k2) == old(self).spec_find(k2),
            old(self).has(first) && old(self).has(second) ==> forall|x: i32, y: i32|
                old(self).has(x) && old(self).has(y) ==> (dsu_same(*final(self), x, y) <==> (
                dsu_same(*old(self), x, y) || (dsu_same(*old(self), x, first) && dsu_same(
                    *old(self),
                    y,
                    second,
                )) || (dsu_same(*old(self), x, second) && dsu_same(*old(self), y, first)))),
    {
        broadcast use vstd::laws_cmp::group_laws_cmp;

        let s1 = match self.slots.get(&first) {
            Some(s) => *s,
            None => {
                return ;
            },
        };
        let s2 = match self.slots.get(&second) {
            Some(s) => *s,
            None => {
                return ;
            },
        };
        proof {
            assert(self.slots@.contains_key(first));
            assert(self.slots@.contains_key(second));
        }
        let a = self.find_slot(s1);
        let ghost snap1 = *self;
        proof {
            assert(root_from(snap1.parent@, snap1.depth@, a as int) == a as int);
        }
        let b = self.find_slot(s2);
        proof {
            assert(root_from(self.parent@, self.depth@, a as int) == a as int);
            assert(root_from(self.parent@, self.depth@, b as int) == b as int);
            lemma_root_props(self.parent@, self.depth@, a as int);
            lemma_root_props(self.parent@, self.depth@, b as int);
        }
        let ghost mid = *self;
        if a != b {
            let first_rank = self.ranks[a];
            let second_rank = self.ranks[b];
            if second_rank >= first_rank {
                self.link_slots(b, a);
            } else {
                self.link_slots(a, b);
            }
            proof {
                assert forall|x: i32, y: i32|
                    mid.has(x) && mid.has(y) implies ((self.spec_find(x) == self.spec_find(y))
                        <==> (mid.spec_find(x) == mid.spec_find(y) || (mid.spec_find(x)
                        == mid.keys@[a as int] && mid.spec_find(y) == mid.keys@[b as int]) || (
                    mid.spec_find(x) == mid.keys@[b as int] && mid.spec_find(y)
                        == mid.keys@[a as int]))) by {
                    let rx = root_from(mid.parent@, mid.depth@, mid.slots@[x] as int);
                    let ry = root_from(mid.parent@, mid.depth@, mid.slots@[y] as int);
                    lemma_root_props(mid.parent@, mid.depth@, mid.slots@[x] as int);
                    lemma_root_props(mid.parent@, mid.depth@, mid.slots@[y] as int);
                }
            }
        }
        proof {
            assert forall|x: i32, y: i32|
                old(self).has(x) && old(self).has(y) implies (dsu_same(*self, x, y) <==> (
            dsu_same(*old(self), x, y) || (dsu_same(*old(self), x, first) && dsu_same(
                *old(self),
                y,
                second,
            )) || (dsu_same(*old(self), x, second) && dsu_same(*old(self), y, first)))) by {
                let sx = old(self).slots@[x] as int;
                let sy = old(self).slots@[y] as int;
                assert(0 <= sx < old(self).parent@.len());
                assert(0 <= sy < old(self).parent@.len());
                assert(root_from(mid.parent@, mid.depth@, sx) == root_from(
                    old(self).parent@,
                    old(self).depth@,
                    sx,
                ));
                assert(root_from(mid.parent@, mid.depth@, sy) == root_from(
                    old(self).parent@,
                    old(self).depth@,
                    sy,
                ));
                assert(mid.spec_find(x) == old(self).spec_find(x));
                assert(mid.spec_find(y) == old(self).spec_find(y));
                assert(mid.spec_find(first) == old(self).spec_find(first));
                assert(mid.spec_find(second) == old(self).spec_find(second));
                assert(mid.spec_find(first) == mid.keys@[a as int]);
                assert(mid.spec_find(second) == mid.keys@[b as int]);
                if a == b {
                    assert(*self == mid);
                }
            }
        }
    }

    /// Attaches root slot `child` under root slot `into`, merging ranks.
    fn link_slots(&mut self, child: usize, into: usize)
        requires
            old(self).wf(),
            (child as int) < old(self).parent@.len(),
            (into as int) < old(self).parent@.len(),
            child != into,
            old(self).parent@[child as int] == child,
            old(self).parent@[into as int] == into,
        ensures
            final(self).wf(),
            final(self).slots@ == old(self).slots@,
            final(self).keys@ == old(self).keys@,
            final(self).parent@.len() == old(self).parent@.len(),
            forall|y: int|
                0 <= y < old(self).parent@.len() ==> root_from(
                    final(self).parent@,
                    final(self).depth@,
                    y,
                ) == (if root_from(old(self).parent@, old(self).depth@, y) == child as int {
                    into as int
                } else {
                    root_from(old(self).parent@, old(self).depth@, y)
                }),
    {
        let ghost p = self.parent@;
        let ghost d = self.depth@;
        let ghost d2 = Seq::new(
            d.len(),
            |x: int|
                if root_from(p, d, x) == child as int {
                    (d[x] + d[into as int] + 1) as nat
                } else {
                    d[x]
                },
        );
        let r1 = self.ranks[into];
        let r2 = self.ranks[child];
        let merged = if r1 <= usize::MAX - r2 {
            r1 + r2
        } else {
            usize::MAX
        };
        self.parent[child] = into;
        self.ranks[child] = merged;
        proof {
            self.depth@ = d2;
            assert forall|y: int|
                0 <= y < self.parent@.len() implies chains_wf(self.parent@, d2) && root_from(
                self.parent@,
                d2,
                y,
            ) == (if root_from(p, d, y) == child as int {
                into as int
            } else {
                root_from(p, d, y)
            }) by {
                lemma_link_roots(p, d, into as int, child as int, d2, y);
            }
        }
    }
}

/// Two keys lie in the same class of the keyed partition.
pub open spec fn dsu_ref_same(s: DSURef, x: u32, y: u32) -> bool {
    s.spec_find(x) == s.spec_find(y)
}

/// DSU over arbitrary keys handed in by reference: each key is registered in a slot registry, and
/// the slots carry the union-by-rank forest with path compression.
pub struct DSURef {
    keys: Vec<u32>,
    slots: std::collections::BTreeMap<u32, usize>,
    parent: Vec<usize>,
    ranks: Vec<usize>,
    depth: Ghost<Seq<nat>>,
}

impl DSURef {
    pub closed spec fn wf(self) -> bool {
        &&& chains_wf(self.parent@, self.depth@)
        &&& self.ranks@.len() == self.parent@.len()
        &&& self.keys@.len() == self.parent@.len()
        &&& (forall|k: u32|
            #[trigger] self.slots@.contains_key(k) ==> (self.slots@[k] as int)
                < self.keys@.len() && self.keys@[self.slots@[k] as int] == k)
        &&& (forall|i: int|
            0 <= i < self.keys@.len() ==> self.slots@.contains_key(#[trigger] self.keys@[i])
                && self.slots@[self.keys@[i]] == i)
    }

    /// The key is registered.
    pub closed spec fn has(self, value: u32) -> bool {
        self.slots@.contains_key(value)
    }

    /// The representative key of a registered key's class.
    pub closed spec fn spec_find(self, value: u32) -> u32 {
        self.keys@[root_from(self.parent@, self.depth@, self.slots@[value] as int)]
    }

    pub fn new() -> (r: Self)
        ensures
            r.wf(),
            forall|k: u32| !r.has(k),
    {
        DSURef {
            keys: Vec::new(),
            slots: std::collections::BTreeMap::new(),
            parent: Vec::new(),
            ranks: Vec::new(),
            depth: Ghost(Seq::empty()),
        }
    }

    /// Registers the key as its own singleton class; a registered key is
    /// left as it is, and no registered key changes its representative.
    pub fn make_set(&mut self, value: &u32)
        requires
            old(self).wf(),
        ensures
            final(self).wf(),
            forall|k: u32| final(self).has(k) <==> old(self).has(k) || k == *value,
            !old(self).has(*value) ==> final(self).spec_find(*value) == *value,
            old(self).has(*value) ==> *final(self) == *old(self),
            forall|k: u32|
                old(self).has(k) ==> final(self).spec_find(k) == old(self).spec_find(k),
    {
        broadcast use vstd::laws_cmp::group_laws_cmp;

        let ghost p = self.parent@;
        let ghost dd = self.depth@;
        if !self.slots.contains_key(value) {
            let slot = self.keys.len();
            self.keys.push(*value);
            self.slots.insert(*value, slot);
            self.parent.push(slot);
            self.ranks.push(1);
            proof {
                self.depth@ = self.depth@.push(0nat);
                assert(self.parent@ =~= p.push(p.len() as usize));
                assert(self.depth@ =~= dd.push(0nat));
                lemma_push_wf(p, dd);
                assert(self.spec_find(*value) == *value) by {
                    assert(self.slots@[*value] == p.len());
                    assert(self.parent@[p.len() as int] == p.len());
                    assert(root_from(self.parent@, self.depth@, p.len() as int) == p.len());
                }
                assert forall|k: u32| old(self).has(k) implies self.spec_find(k) == old(
                    self,
                ).spec_find(k) by {
                    let s = old(self).slots@[k] as int;
                    assert(0 <= s < p.len());
                    assert(k != *value);
                    assert(self.slots@[k] == old(self).slots@[k]);
                    lemma_root_push(p, dd, s);
                    lemma_root_props(p, dd, s);
                    assert(self.keys@[root_from(p, dd, s)] == old(self).keys@[root_from(p, dd, s)]);
                }
            }
        }
    }

    /// The representative key of the class, or nothing for an unregistered
    /// key; the walked chain is compressed.
    pub fn find_set(&mut self, value: &u32) -> (r: Option<u32>)
        requires
            old(self).wf(),
        ensures
            final(self).wf(),
            forall|k2: u32| final(self).has(k2) <==> old(self).has(k2),
            (r is Some) <==> old(self).has(*value),
            r matches Some(k) ==> k == old(self).spec_find(*value),
            forall|k2: u32|
                old(self).has(k2) ==> final(self).spec_find(k2) == old(self).spec_find(k2),
    {
        broadcast use vstd::laws_cmp::group_laws_cmp;

        let slot = match self.slots.get(value) {
            Some(s) => *s,
            None => {
                return None;
            },
        };
        proof {
            assert(self.slots@.contains_key(*value));
        }
        let root = self.find_slot(slot);
        Some(self.keys[root])
    }

    /// Slot-level find with path compression.
    fn find_slot(&mut self, slot: usize) -> (r: usize)
        requires
            old(self).wf(),
            (slot as int) < old(self).parent@.len(),
        ensures
            final(self).wf(),
            final(self).slots@ == old(self).slots@,
            final(self).keys@ == old(self).keys@,
            final(self).ranks@ == old(self).ranks@,
            final(self).parent@.len() == old(self).parent@.len(),
            final(self).depth@ == old(self).depth@,
            r == root_from(old(self).parent@, old(self).depth@, slot as int),
            (r as int) < old(self).parent@.len(),
            final(self).parent@[r as int] == r,
            forall|x: int|
                0 <= x < old(self).parent@.len() ==> root_from(
                    final(self).parent@,
                    final(self).depth@,
                    x,
                ) == root_from(old(self).parent@, old(self).depth@, x),
    {
        let ghost d = self.depth@;
        let mut cur = slot;
        while self.parent[cur] != cur
            invariant
                chains_wf(self.parent@, d),
                self.depth@ == d,
                self.parent@ == old(self).parent@,
                (cur as int) < self.parent@.len(),
                root_from(self.parent@, d, cur as int) == root_from(self.parent@, d, slot as int),
            decreases d[cur as int],
        {
            cur = self.parent[cur];
        }
        let root = cur;
        proof {
            assert(root_from(self.parent@, d, root as int) == root as int);
        }
        let mut walk = slot;
        while self.parent[walk] != walk
            invariant
                chains_wf(self.parent@, d),
                self.depth@ == d,
                self.parent@.len() == old(self).parent@.len(),
                self.keys@ == old(self).keys@,
                self.slots@ == old(self).slots@,
                self.ranks@ == old(self).ranks@,
                (walk as int) < self.parent@.len(),
                (root as int) < self.parent@.len(),
                self.parent@[root as int] == root,
                root_from(self.parent@, d, walk as int) == root as int,
                forall|x: int|
                    0 <= x < self.parent@.len() ==> root_from(self.parent@, d, x) == root_from(
                        old(self).parent@,
                        d,
                        x,
                    ),
                self.ranks@.len() == self.parent@.len(),
                self.keys@.len() == self.parent@.len(),
            decreases d[walk as int],
        {
            let nxt = self.parent[walk];
            let ghost pbefore = self.parent@;
            self.parent[walk] = root;
            proof {
                assert forall|y: int|
                    0 <= y < self.parent@.len() implies root_from(self.parent@, d, y)
                        == root_from(pbefore, d, y) && chains_wf(self.parent@, d) by {
                    lemma_compress_noop(pbefore, d, walk as int, root as int, y);
                }
                assert(root_from(self.parent@, d, nxt as int) == root as int) by {
                    assert(root_from(pbefore, d, walk as int) == root_from(
                        pbefore,
                        d,
                        nxt as int,
                    ));
                }
            }
            walk = nxt;
        }
        root
    }

    /// Joins the classes of two registered keys; unregistered keys join
    /// nothing.
    pub fn union_sets(&mut self, first: &u32, second: &u32)
        requires
            old(self).wf(),
        ensures
            final(self).wf(),
            forall|k2: u32| final(self).has(k2) <==> old(self).has(k2),
            !old(self).has(*first) || !old(self).has(*second) ==> forall|k2: u32|
                old(self).has(k2) ==> final(self).spec_find(k2) == old(self).spec_find(k2),
            old(self).has(*first) && old(self).has(*second) ==> forall|x: u32, y: u32|
                old(self).has(x) && old(self).has(y) ==> (dsu_ref_same(*final(self), x, y) <==> (
                dsu_ref_same(*old(self), x, y) || (dsu_ref_same(*old(self), x, *first) && dsu_ref_same(
                    *old(self),
                    y,
                    *second,
                )) || (dsu_ref_same(*old(self), x, *second) && dsu_ref_same(*old(self), y, *first)))),
    {
        broadcast use vstd::laws_cmp::group_laws_cmp;

        let s1 = match self.slots.get(first) {
            Some(s) => *s,
            None => {
                return ;
            },
        };
        let s2 = match self.slots.get(second) {
            Some(s) => *s,
            None => {
                return ;
            },
        };
        proof {
            assert(self.slots@.contains_key(*first));
            assert(self.slots@.contains_key(*second));
        }
        let a = self.find_slot(s1);
        let ghost snap1 = *self;
        proof {
            assert(root_from(snap1.parent@, snap1.depth@, a as int) == a as int);
        }
        let b = self.find_slot(s2);
        proof {
            assert(root_from(self.parent@, self.depth@, a as int) == a as int);
            assert(root_from(self.parent@, self.depth@, b as int) == b as int);
            lemma_root_props(self.parent@, self.depth@, a as int);
            lemma_root_props(self.parent@, self.depth@, b as int);
        }
        let ghost mid = *self;
        if a != b {
            let first_rank = self.ranks[a];
            let second_rank = self.ranks[b];
            if second_rank >= first_rank {
                self.link_slots(b, a);
            } else {
                self.link_slots(a, b);
            }
            proof {
                assert forall|x: u32, y: u32|
                    mid.has(x) && mid.has(y) implies ((self.spec_find(x) == self.spec_find(y))
                        <==> (mid.spec_find(x) == mid.spec_find(y) || (mid.spec_find(x)
                        == mid.keys@[a as int] && mid.spec_find(y) == mid.keys@[b as int]) || (
                    mid.spec_find(x) == mid.keys@[b as int] && mid.spec_find(y)
                        == mid.keys@[a as int]))) by {
                    let rx = root_from(mid.parent@, mid.depth@, mid.slots@[x] as int);
                    let ry = root_from(mid.parent@, mid.depth@, mid.slots@[y] as int);
                    lemma_root_props(mid.parent@, mid.depth@, mid.slots@[x] as int);
                    lemma_root_props(mid.parent@, mid.depth@, mid.slots@[y] as int);
                }
            }
        }
        proof {
            assert forall|x: u32, y: u32|
                old(self).has(x) && old(self).has(y) implies (dsu_ref_same(*self, x, y) <==> (
            dsu_ref_same(*old(self), x, y) || (dsu_ref_same(*old(self), x, *first) && dsu_ref_same(
                *old(self),
                y,
                *second,
            )) || (dsu_ref_same(*old(self), x, *second) && dsu_ref_same(*old(self), y, *first)))) by {
                let sx = old(self).slots@[x] as int;
                let sy = old(self).slots@[y] as int;
                assert(0 <= sx < old(self).parent@.len());
                assert(0 <= sy < old(self).parent@.len());
                assert(root_from(mid.parent@, mid.depth@, sx) == root_from(
                    old(self).parent@,
                    old(self).depth@,
                    sx,
                ));
                assert(root_from(mid.parent@, mid.depth@, sy) == root_from(
                    old(self).parent@,
                    old(self).depth@,
                    sy,
                ));
                assert(mid.spec_find(x) == old(self).spec_find(x));
                assert(mid.spec_find(y) == old(self).spec_find(y));
                assert(mid.spec_find(*first) == old(self).spec_find(*first));
                assert(mid.spec_find(*second) == old(self).spec_find(*second));
                assert(mid.spec_find(*first) == mid.keys@[a as int]);
                assert(mid.spec_find(*second) == mid.keys@[b as int]);
                if a == b {
                    assert(*self == mid);
                }
            }
        }
    }

    /// Attaches root slot `child` under root slot `into`, merging ranks.
    fn link_slots(&mut self, child: usize, into: usize)
        requires
            old(self).wf(),
            (child as int) < old(self).parent@.len(),
            (into as int) < old(self).parent@.len(),
            child != into,
            old(self).parent@[child as int] == child,
            old(self).parent@[into as int] == into,
        ensures
            final(self).wf(),
            final(self).slots@ == old(self).slots@,
            final(self).keys@ == old(self).keys@,
            final(self).parent@.len() == old(self).parent@.len(),
            forall|y: int|
                0 <= y < old(self).parent@.len() ==> root_from(
                    final(self).parent@,
                    final(self).depth@,
                    y,
                ) == (if root_from(old(self).parent@, old(self).depth@, y) == child as int {
                    into as int
                } else {
                    root_from(old(self).parent@, old(self).depth@, y)
                }),
    {
        let ghost p = self.parent@;
        let ghost d = self.depth@;
        let ghost d2 = Seq::new(
            d.len(),
            |x: int|
                if root_from(p, d, x) == child as int {
                    (d[x] + d[into as int] + 1) as nat
                } else {
                    d[x]
                },
        );
        let r1 = self.ranks[into];
        let r2 = self.ranks[child];
        let merged = if r1 <= usize::MAX - r2 {
            r1 + r2
        } else {
            usize::MAX
        };
        self.parent[child] = into;
        self.ranks[child] = merged;
        proof {
            self.depth@ = d2;
            assert forall|y: int|
                0 <= y < self.parent@.len() implies chains_wf(self.parent@, d2) && root_from(
                self.parent@,
                d2,
                y,
            ) == (if root_from(p, d, y) == child as int {
                into as int
            } else {
                root_from(p, d, y)
            }) by {
                lemma_link_roots(p, d, into as int, child as int, d2, y);
            }
        }
    }
}


} // verus!
