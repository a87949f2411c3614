use vstd::prelude::*;

verus! {

/// A type with a least element, used as the identity of a maximum tree.
pub trait SegmentTreeMin: Sized {
    fn minimal() -> Self;
}

/// A type with a greatest element, used as the identity of a minimum tree.
pub trait SegmentTreeMax: Sized {
    fn maximal() -> Self;
}

impl SegmentTreeMin for i32 {
    fn minimal() -> i32 {
        i32::MIN
    }
}

impl SegmentTreeMax for i32 {
    fn maximal() -> i32 {
        i32::MAX
    }
}

impl SegmentTreeMin for usize {
    fn minimal() -> usize {
        usize::MIN
    }
}

impl SegmentTreeMax for usize {
    fn maximal() -> usize {
        usize::MAX
    }
}

/// `n` is a power of two.
pub open spec fn is_pow2(n: nat) -> bool
    decreases n,
{
    if n == 0 {
        false
    } else if n == 1 {
        true
    } else {
        n % 2 == 0 && is_pow2(n / 2)
    }
}

/// Node `m` lies in the subtree rooted at node `j` of a heap-ordered tree.
pub open spec fn in_subtree(j: int, m: int) -> bool
    decreases m,
{
    if m < j || m < 1 {
        false
    } else if m == j {
        true
    } else {
        in_subtree(j, m / 2)
    }
}

proof fn lemma_child_in_subtree(j: int, m: int)
    requires
        j >= 1,
    ensures
        in_subtree(2 * j, m) ==> in_subtree(j, m),
        in_subtree(2 * j + 1, m) ==> in_subtree(j, m),
    decreases m,
{
    if m < 1 {
    } else if m == 2 * j || m == 2 * j + 1 {
        assert(m / 2 == j);
        assert(in_subtree(j, j));
        assert(in_subtree(j, m) == in_subtree(j, m / 2));
    } else {
        lemma_child_in_subtree(j, m / 2);
    }
}

proof fn lemma_siblings_disjoint(j: int, m: int)
    requires
        j >= 1,
    ensures
        !(in_subtree(2 * j, m) && in_subtree(2 * j + 1, m)),
    decreases m,
{
    if m < 1 || m < 2 * j {
    } else if m == 2 * j {
        assert(!in_subtree(2 * j + 1, m));
    } else if m == 2 * j + 1 {
        assert(in_subtree(2 * j, m) == in_subtree(2 * j, j));
        assert(!in_subtree(2 * j, j));
    } else {
        lemma_siblings_disjoint(j, m / 2);
    }
}

proof fn lemma_not_in_own_strict_subtree(j: int)
    requires
        j >= 1,
    ensures
        !in_subtree(2 * j, j),
        !in_subtree(2 * j + 1, j),
{
}

/// The leaf value at position `i`: the stored value inside the array,
/// the identity of minimum outside it.
pub open spec fn leaf_min(vals: Seq<usize>, i: int) -> usize {
    if 0 <= i < vals.len() {
        vals[i]
    } else {
        usize::MAX
    }
}

pub open spec fn min2(a: usize, b: usize) -> usize {
    if a <= b {
        a
    } else {
        b
    }
}

/// The minimum of the (padded) leaf values over positions `[lo, hi)`;
/// the identity of minimum on an empty range.
pub open spec fn range_min(vals: Seq<usize>, lo: int, hi: int) -> usize
    decreases hi - lo,
{
    if hi <= lo {
        usize::MAX
    } else {
        min2(leaf_min(vals, lo), range_min(vals, lo + 1, hi))
    }
}

/// The subtree rooted at `node`, covering leaf positions `[lo, lo + size)`,
/// stores at every inner node the minimum of its two children and at every
/// leaf the (padded) array value.
pub open spec fn min_tree_ok(data: Seq<usize>, vals: Seq<usize>, node: int, lo: int, size: nat) -> bool
    decreases size,
{
    &&& 1 <= node < data.len()
    &&& if size <= 1 {
        data[node] == leaf_min(vals, lo)
    } else {
        &&& data[node] == min2(data[2 * node], data[2 * node + 1])
        &&& min_tree_ok(data, vals, 2 * node, lo, (size / 2) as nat)
        &&& min_tree_ok(data, vals, 2 * node + 1, lo + size / 2, (size / 2) as nat)
    }
}

proof fn lemma_range_min_concat(vals: Seq<usize>, lo: int, mid: int, hi: int)
    requires
        lo <= mid <= hi,
    ensures
        range_min(vals, lo, hi) == min2(range_min(vals, lo, mid), range_min(vals, mid, hi)),
    decreases mid - lo,
{
    if lo < mid {
        lemma_range_min_concat(vals, lo + 1, mid, hi);
    }
}

proof fn lemma_min_tree_node_value(data: Seq<usize>, vals: Seq<usize>, node: int, lo: int, size: nat)
    requires
        min_tree_ok(data, vals, node, lo, size),
        size >= 1,
        is_pow2(size),
    ensures
        data[node] == range_min(vals, lo, lo + size),
    decreases size,
{
    if size <= 1 {
        assert(range_min(vals, lo + 1, lo + size) == usize::MAX);
    } else {
        assert(size % 2 == 0 && is_pow2((size / 2) as nat));
        assert(size / 2 + size / 2 == size);
        lemma_min_tree_node_value(data, vals, 2 * node, lo, (size / 2) as nat);
        lemma_min_tree_node_value(data, vals, 2 * node + 1, lo + size / 2, (size / 2) as nat);
        lemma_range_min_concat(vals, lo, lo + size / 2, lo + size);
        assert(data[node] == min2(data[2 * node], data[2 * node + 1]));
        assert(data[2 * node] == range_min(vals, lo, lo + size / 2));
        assert(data[2 * node + 1] == range_min(vals, lo + size / 2, lo + size));
    }
}

proof fn lemma_min_tree_frame(
    d1: Seq<usize>,
    d2: Seq<usize>,
    vals: Seq<usize>,
    node: int,
    lo: int,
    size: nat,
)
    requires
        min_tree_ok(d1, vals, node, lo, size),
        d2.len() == d1.len(),
        forall|m: int| 0 <= m < d1.len() && in_subtree(node, m) ==> d2[m] == d1[m],
    ensures
        min_tree_ok(d2, vals, node, lo, size),
    decreases size,
{
    assert(in_subtree(node, node));
    if size > 1 {
        assert forall|m: int|
            0 <= m < d1.len() && in_subtree(2 * node, m) implies d2[m] == d1[m] by {
            lemma_child_in_subtree(node, m);
        }
        assert forall|m: int|
            0 <= m < d1.len() && in_subtree(2 * node + 1, m) implies d2[m] == d1[m] by {
            lemma_child_in_subtree(node, m);
        }
        lemma_min_tree_frame(d1, d2, vals, 2 * node, lo, (size / 2) as nat);
        lemma_min_tree_frame(d1, d2, vals, 2 * node + 1, lo + size / 2, (size / 2) as nat);
        assert(in_subtree(node, 2 * node));
        assert(in_subtree(node, 2 * node + 1));
    }
}

proof fn lemma_min_tree_vals_agree(
    data: Seq<usize>,
    v1: Seq<usize>,
    v2: Seq<usize>,
    node: int,
    lo: int,
    size: nat,
)
    requires
        min_tree_ok(data, v1, node, lo, size),
        size >= 1,
        forall|i: int| lo <= i < lo + size ==> leaf_min(v1, i) == leaf_min(v2, i),
    ensures
        min_tree_ok(data, v2, node, lo, size),
    decreases size,
{
    if size > 1 {
        lemma_min_tree_vals_agree(data, v1, v2, 2 * node, lo, (size / 2) as nat);
        lemma_min_tree_vals_agree(data, v1, v2, 2 * node + 1, lo + size / 2, (size / 2) as nat);
    }
}

proof fn lemma_min_tree_leaf(
    data: Seq<usize>,
    vals: Seq<usize>,
    node: int,
    lo: int,
    size: nat,
    half: int,
    i: int,
)
    requires
        min_tree_ok(data, vals, node, lo, size),
        size >= 1,
        is_pow2(size),
        node * size == lo + half,
        lo <= i < lo + size,
    ensures
        half + i < data.len(),
        data[half + i] == leaf_min(vals, i),
    decreases size,
{
    if size <= 1 {
        assert(node * 1 == node) by (nonlinear_arith);
        assert(node == lo + half);
    } else {
        assert(size % 2 == 0 && is_pow2((size / 2) as nat));
        let h = (size / 2) as nat;
        assert(2 * node * h == node * size) by (nonlinear_arith)
            requires
                size % 2 == 0,
                h == size / 2,
        ;
        assert((2 * node + 1) * h == node * size + h) by (nonlinear_arith)
            requires
                size % 2 == 0,
                h == size / 2,
        ;
        if i < lo + size / 2 {
            lemma_min_tree_leaf(data, vals, 2 * node, lo, h, half, i);
        } else {
            lemma_min_tree_leaf(data, vals, 2 * node + 1, lo + size / 2, h, half, i);
        }
    }
}

/// The smallest power of two not below `count`, doubled: the arena size of a
/// segment tree with `count` leaves.
fn determine_necessary_size_tree(count: usize) -> (n: usize)
    requires
        count <= 0x800_0000,
    ensures
        is_pow2(n as nat),
        n >= 2,
        n / 2 >= count,
        n <= 0x2000_0000,
{
    let mut n: usize = 1;
    while n < count
        invariant
            is_pow2(n as nat),
            1 <= n,
            count <= 0x800_0000,
            n == 1 || n <= 2 * (count - 1),
        decreases 2 * count - n,
    {
        n = n * 2;
        proof {
            assert(n % 2 == 0 && is_pow2((n / 2) as nat));
        }
    }
    let r = n * 2;
    proof {
        assert(r % 2 == 0 && is_pow2((r / 2) as nat));
    }
    r
}

/// Range Minimum Query
pub struct RmqMin {
    data: Vec<usize>,
    len: usize,
}

impl RmqMin {
    /// The stored array, as read back from the tree's leaves.
    pub closed spec fn values(self) -> Seq<usize> {
        self.data@.subrange(
            self.data@.len() as int / 2,
            self.data@.len() as int / 2 + self.len as int,
        )
    }

    /// The tree is well formed.
    pub closed spec fn wf(self) -> bool {
        if self.data.len() == 0 {
            self.len == 0
        } else {
            &&& is_pow2(self.data@.len() as nat)
            &&& self.data.len() >= 2
            &&& self.len <= self.data.len() / 2
            &&& self.data.len() <= 0x2000_0000
            &&& min_tree_ok(
                self.data@,
                self.values(),
                1,
                0,
                (self.data@.len() / 2) as nat,
            )
        }
    }

    pub open spec fn spec_len(self) -> nat {
        self.values().len()
    }

    /// Build Segment Tree (RMQMin) from slice.
    pub fn new(src: &Vec<usize>) -> (tree: Self)
        requires
            src@.len() <= 0x800_0000,
        ensures
            tree.wf(),
            tree.values() == src@,
    {
        if src.is_empty() {
            let tree = RmqMin { data: Vec::new(), len: 0 };
            proof {
                assert(tree.values() =~= src@);
            }
            return tree;
        }
        let n = determine_necessary_size_tree(src.len());
        let mut dst: Vec<usize> = Vec::new();
        let mut i: usize = 0;
        while i < n
            invariant
                dst@.len() == i,
                i <= n,
            decreases n - i,
        {
            dst.push(usize::MAX);
            i += 1;
        }
        proof {
            assert(n % 2 == 0 && is_pow2((n / 2) as nat));
            assert(1 * ((n / 2) as int) == 0 + (n as int) / 2) by (nonlinear_arith)
                requires
                    n % 2 == 0,
            ;
        }
        min_build_node(&mut dst, src, 1, 0, n / 2);
        let tree = RmqMin { data: dst, len: src.len() };
        proof {
            let half = (n as int) / 2;
            let size = (n / 2) as nat;
            assert forall|i: int| 0 <= i < src@.len() implies tree.values()[i] == src@[i] by {
                lemma_min_tree_leaf(tree.data@, src@, 1, 0, size, half, i);
            }
            assert(tree.values() =~= src@);
            lemma_min_tree_vals_agree(tree.data@, src@, tree.values(), 1, 0, size);
        }
        tree
    }

    /// Returns the minimal on the interval l to r (inclusive, in either order).
    pub fn query(&self, l: usize, r: usize) -> (res: Option<usize>)
        requires
            self.wf(),
        ensures
            res == self.spec_query(l, r),
    {
        if self.data.is_empty() || l >= self.len || r >= self.len {
            return None;
        }
        let (a, b) = if l <= r {
            (l, r)
        } else {
            (r, l)
        };
        proof {
            assert(1 * ((self.data@.len() / 2) as int) == 0 + self.data@.len() as int / 2)
                by (nonlinear_arith);
        }
        let res = min_query_node(
            &self.data,
            Ghost(self.values()),
            1,
            0,
            self.data.len() / 2,
            a,
            b + 1,
        );
        Some(res)
    }

    /// What `query` returns: the minimum over the values between the two
    /// endpoints, taken in either order, or nothing when an endpoint is out
    /// of range.
    pub open spec fn spec_query(self, l: usize, r: usize) -> Option<usize> {
        if self.spec_len() == 0 || l >= self.spec_len() || r >= self.spec_len() {
            None
        } else {
            let a = if l <= r {
                l as int
            } else {
                r as int
            };
            let b = if l <= r {
                r as int
            } else {
                l as int
            };
            Some(range_min(self.values(), a, b + 1))
        }
    }

    /// Update value by index
    pub fn update(&mut self, idx: usize, value: usize)
        requires
            old(self).wf(),
        ensures
            final(self).wf(),
            final(self).spec_len() == old(self).spec_len(),
            idx < old(self).spec_len() ==> final(self).values() == old(self).values().update(
                idx as int,
                value,
            ),
            idx >= old(self).spec_len() ==> final(self).values() == old(self).values(),
    {
        if !self.data.is_empty() && idx < self.len {
            let ghost old_vals = self.values();
            let ghost new_vals = self.values().update(idx as int, value);
            let n = self.data.len();
            proof {
                assert(1 * ((n / 2) as int) == 0 + (n as int) / 2) by (nonlinear_arith);
            }
            min_update_node(
                &mut self.data,
                Ghost(old_vals),
                Ghost(new_vals),
                1,
                0,
                n / 2,
                idx,
                value,
            );
            proof {
                let half = (n as int) / 2;
                let size = (n / 2) as nat;
                assert forall|i: int| 0 <= i < new_vals.len() implies self.values()[i]
                    == new_vals[i] by {
                    lemma_min_tree_leaf(self.data@, new_vals, 1, 0, size, half, i);
                }
                assert(self.values() =~= new_vals);
                lemma_min_tree_vals_agree(self.data@, new_vals, self.values(), 1, 0, size);
            }
        }
    }
}

/// Fills the subtree rooted at `node` from the source array.
fn min_build_node(data: &mut Vec<usize>, src: &Vec<usize>, node: usize, lo: usize, size: usize)
    requires
        size >= 1,
        is_pow2(size as nat),
        old(data).len() >= 2,
        is_pow2(old(data)@.len() as nat),
        old(data).len() <= 0x2000_0000,
        lo + size <= old(data).len() / 2,
        node * size == lo + old(data).len() / 2,
    ensures
        final(data).len() == old(data).len(),
        forall|m: int|
            0 <= m < final(data).len() && !in_subtree(node as int, m) ==> final(data)@[m] == old(
                data,
            )@[m],
        min_tree_ok(final(data)@, src@, node as int, lo as int, size as nat),
    decreases size,
{
    let ghost half = old(data)@.len() as int / 2;
    proof {
        assert(node * size >= half >= size) by (nonlinear_arith)
            requires
                node * size == lo + half,
                lo >= 0,
                size <= half,
        ;
        assert(node >= 1) by (nonlinear_arith)
            requires
                node * size >= size,
                size >= 1,
        ;
        assert(node < 2 * half) by (nonlinear_arith)
            requires
                node * size == lo + half,
                lo + size <= half,
                size >= 1,
                node >= 1,
        ;
    }
    if size == 1 {
        let v = if lo < src.len() {
            src[lo]
        } else {
            usize::MAX
        };
        data[node] = v;
        proof {
            assert(in_subtree(node as int, node as int));
        }
    } else {
        proof {
            assert(size % 2 == 0 && is_pow2((size / 2) as nat));
            assert((2 * node) * ((size / 2) as int) == lo + half) by (nonlinear_arith)
                requires
                    node * size == lo + half,
                    size % 2 == 0,
            ;
            assert((2 * node + 1) * ((size / 2) as int) == lo + size / 2 + half)
                by (nonlinear_arith)
                requires
                    node * size == lo + half,
                    size % 2 == 0,
            ;
        }
        let ghost data0 = data@;
        min_build_node(data, src, 2 * node, lo, size / 2);
        let ghost data1 = data@;
        min_build_node(data, src, 2 * node + 1, lo + size / 2, size / 2);
        proof {
            assert forall|m: int|
                0 <= m < data@.len() && in_subtree(2 * node as int, m) implies data@[m]
                == data1[m] by {
                if in_subtree(2 * node + 1 as int, m) {
                    lemma_siblings_disjoint(node as int, m);
                }
            }
            lemma_min_tree_frame(
                data1,
                data@,
                src@,
                2 * node as int,
                lo as int,
                (size / 2) as nat,
            );
        }
        let a = data[2 * node];
        let b = data[2 * node + 1];
        let m = if a <= b {
            a
        } else {
            b
        };
        let ghost data2 = data@;
        data[node] = m;
        proof {
            lemma_not_in_own_strict_subtree(node as int);
            assert forall|mm: int|
                0 <= mm < data@.len() && in_subtree(2 * node as int, mm) implies data@[mm]
                == data2[mm] by {
                if mm == node {
                    lemma_siblings_disjoint(node as int, mm);
                }
            }
            assert forall|mm: int|
                0 <= mm < data@.len() && in_subtree(2 * node + 1 as int, mm) implies data@[mm]
                == data2[mm] by {}
            lemma_min_tree_frame(
                data2,
                data@,
                src@,
                2 * node as int,
                lo as int,
                (size / 2) as nat,
            );
            lemma_min_tree_frame(
                data2,
                data@,
                src@,
                2 * node + 1 as int,
                lo as int + size as int / 2,
                (size / 2) as nat,
            );
            assert forall|m: int|
                0 <= m < data.len() && !in_subtree(node as int, m) implies data@[m]
                == data0[m] by {
                lemma_child_in_subtree(node as int, m);
            }
        }
    }
}

/// Returns the minimum over the intersection of the query range `[l, hi)`
/// with the leaf range of `node`.
fn min_query_node(
    data: &Vec<usize>,
    Ghost(vals): Ghost<Seq<usize>>,
    node: usize,
    lo: usize,
    size: usize,
    l: usize,
    hi: usize,
) -> (res: usize)
    requires
        size >= 1,
        is_pow2(size as nat),
        min_tree_ok(data@, vals, node as int, lo as int, size as nat),
        lo + size <= data.len(),
        hi <= data.len(),
        l < hi,
        data.len() <= 0x2000_0000,
    ensures
        res == range_min(
            vals,
            if l >= lo {
                l as int
            } else {
                lo as int
            },
            if hi <= lo + size {
                hi as int
            } else {
                lo as int + size as int
            },
        ),
    decreases size,
{
    let ghost a: int = if l >= lo {
        l as int
    } else {
        lo as int
    };
    let ghost b: int = if hi <= lo + size {
        hi as int
    } else {
        lo as int + size as int
    };
    if hi <= lo || l >= lo + size {
        proof {
            assert(b <= a);
        }
        return usize::MAX;
    }
    if l <= lo && lo + size <= hi {
        proof {
            lemma_min_tree_node_value(data@, vals, node as int, lo as int, size as nat);
        }
        return data[node];
    }
    proof {
        assert(size >= 2);
        assert(size % 2 == 0 && is_pow2((size / 2) as nat));
    }
    let left = min_query_node(data, Ghost(vals), 2 * node, lo, size / 2, l, hi);
    let right = min_query_node(data, Ghost(vals), 2 * node + 1, lo + size / 2, size / 2, l, hi);
    let res = if left <= right {
        left
    } else {
        right
    };
    proof {
        let mid = lo as int + size as int / 2;
        let la: int = if l >= lo {
            l as int
        } else {
            lo as int
        };
        let lb: int = if hi <= mid {
            hi as int
        } else {
            mid
        };
        let ra: int = if l as int >= mid {
            l as int
        } else {
            mid
        };
        let rb: int = b;
        if b <= mid {
            assert(right == usize::MAX);
            assert(lb == b);
            lemma_range_min_concat(vals, a, a, b);
        } else if a >= mid {
            assert(left == usize::MAX);
            lemma_range_min_concat(vals, a, a, b);
        } else {
            assert(la == a && lb == mid && ra == mid && rb == b);
            lemma_range_min_concat(vals, a, mid, b);
        }
    }
    res
}

/// Rewrites the path from `node` down to the leaf holding position `idx`.
fn min_update_node(
    data: &mut Vec<usize>,
    Ghost(vals): Ghost<Seq<usize>>,
    Ghost(new_vals): Ghost<Seq<usize>>,
    node: usize,
    lo: usize,
    size: usize,
    idx: usize,
    value: usize,
)
    requires
        size >= 1,
        is_pow2(size as nat),
        min_tree_ok(old(data)@, vals, node as int, lo as int, size as nat),
        old(data).len() <= 0x2000_0000,
        lo + size <= old(data).len(),
        lo <= idx < lo + size,
        new_vals == vals.update(idx as int, value as usize),
        0 <= idx < vals.len(),
    ensures
        final(data).len() == old(data).len(),
        forall|m: int|
            0 <= m < final(data).len() && !in_subtree(node as int, m) ==> final(data)@[m] == old(
                data,
            )@[m],
        min_tree_ok(final(data)@, new_vals, node as int, lo as int, size as nat),
    decreases size,
{
    if size == 1 {
        proof {
            assert(in_subtree(node as int, node as int));
        }
        data[node] = value;
    } else {
        proof {
            assert(size % 2 == 0 && is_pow2((size / 2) as nat));
        }
        let ghost data0 = data@;
        if idx < lo + size / 2 {
            min_update_node(data, Ghost(vals), Ghost(new_vals), 2 * node, lo, size / 2, idx, value);
            proof {
                assert forall|m: int|
                    0 <= m < data@.len() && in_subtree(2 * node + 1 as int, m) implies data@[m]
                    == data0[m] by {
                    if in_subtree(2 * node as int, m) {
                        lemma_siblings_disjoint(node as int, m);
                    }
                }
                lemma_min_tree_frame(
                    data0,
                    data@,
                    vals,
                    2 * node + 1 as int,
                    lo as int + size as int / 2,
                    (size / 2) as nat,
                );
                lemma_min_tree_vals_agree(
                    data@,
                    vals,
                    new_vals,
                    2 * node + 1 as int,
                    lo as int + size as int / 2,
                    (size / 2) as nat,
                );
            }
        } else {
            min_update_node(
                data,
                Ghost(vals),
                Ghost(new_vals),
                2 * node + 1,
                lo + size / 2,
                size / 2,
                idx,
                value,
            );
            proof {
                assert forall|m: int|
                    0 <= m < data@.len() && in_subtree(2 * node as int, m) implies data@[m]
                    == data0[m] by {
                    if in_subtree(2 * node + 1 as int, m) {
                        lemma_siblings_disjoint(node as int, m);
                    }
                }
                lemma_min_tree_frame(
                    data0,
                    data@,
                    vals,
                    2 * node as int,
                    lo as int,
                    (size / 2) as nat,
                );
                lemma_min_tree_vals_agree(
                    data@,
                    vals,
                    new_vals,
                    2 * node as int,
                    lo as int,
                    (size / 2) as nat,
                );
            }
        }
        let a = data[2 * node];
        let b = data[2 * node + 1];
        let m = if a <= b {
            a
        } else {
            b
        };
        let ghost data2 = data@;
        data[node] = m;
        proof {
            lemma_not_in_own_strict_subtree(node as int);
            assert forall|mm: int|
                0 <= mm < data@.len() && (in_subtree(2 * node as int, mm) || in_subtree(
                    2 * node + 1 as int,
                    mm,
                )) implies data@[mm] == data2[mm] by {}
            lemma_min_tree_frame(
                data2,
                data@,
                new_vals,
                2 * node as int,
                lo as int,
                (size / 2) as nat,
            );
            lemma_min_tree_frame(
                data2,
                data@,
                new_vals,
                2 * node + 1 as int,
                lo as int + size as int / 2,
                (size / 2) as nat,
            );
            assert forall|m: int|
                0 <= m < data.len() && !in_subtree(node as int, m) implies data@[m]
                == data0[m] by {
                lemma_child_in_subtree(node as int, m);
            }
        }
    }
}

/// The leaf value at position `i`: the stored value inside the array,
/// the identity of maximum outside it.
pub open spec fn leaf_max(vals: Seq<usize>, i: int) -> usize {
    if 0 <= i < vals.len() {
        vals[i]
    } else {
        usize::MIN
    }
}

pub open spec fn max2(a: usize, b: usize) -> usize {
    if a >= b {
        a
    } else {
        b
    }
}

/// The maximum of the (padded) leaf values over positions `[lo, hi)`;
/// the identity of maximum on an empty range.
pub open spec fn range_max(vals: Seq<usize>, lo: int, hi: int) -> usize
    decreases hi - lo,
{
    if hi <= lo {
        usize::MIN
    } else {
        max2(leaf_max(vals, lo), range_max(vals, lo + 1, hi))
    }
}

/// The subtree rooted at `node`, covering leaf positions `[lo, lo + size)`,
/// stores at every inner node the maximum of its two children and at every
/// leaf the (padded) array value.
pub open spec fn max_tree_ok(data: Seq<usize>, vals: Seq<usize>, node: int, lo: int, size: nat) -> bool
    decreases size,
{
    &&& 1 <= node < data.len()
    &&& if size <= 1 {
        data[node] == leaf_max(vals, lo)
    } else {
        &&& data[node] == max2(data[2 * node], data[2 * node + 1])
        &&& max_tree_ok(data, vals, 2 * node, lo, (size / 2) as nat)
        &&& max_tree_ok(data, vals, 2 * node + 1, lo + size / 2, (size / 2) as nat)
    }
}

proof fn lemma_range_max_concat(vals: Seq<usize>, lo: int, mid: int, hi: int)
    requires
        lo <= mid <= hi,
    ensures
        range_max(vals, lo, hi) == max2(range_max(vals, lo, mid), range_max(vals, mid, hi)),
    decreases mid - lo,
{
    if lo < mid {
        lemma_range_max_concat(vals, lo + 1, mid, hi);
    }
}

proof fn lemma_max_tree_node_value(data: Seq<usize>, vals: Seq<usize>, node: int, lo: int, size: nat)
    requires
        max_tree_ok(data, vals, node, lo, size),
        size >= 1,
        is_pow2(size),
    ensures
        data[node] == range_max(vals, lo, lo + size),
    decreases size,
{
    if size <= 1 {
        assert(range_max(vals, lo + 1, lo + size) == usize::MIN);
    } else {
        assert(size % 2 == 0 && is_pow2((size / 2) as nat));
        assert(size / 2 + size / 2 == size);
        lemma_max_tree_node_value(data, vals, 2 * node, lo, (size / 2) as nat);
        lemma_max_tree_node_value(data, vals, 2 * node + 1, lo + size / 2, (size / 2) as nat);
        lemma_range_max_concat(vals, lo, lo + size / 2, lo + size);
        assert(data[node] == max2(data[2 * node], data[2 * node + 1]));
        assert(data[2 * node] == range_max(vals, lo, lo + size / 2));
        assert(data[2 * node + 1] == range_max(vals, lo + size / 2, lo + size));
    }
}

proof fn lemma_max_tree_frame(
    d1: Seq<usize>,
    d2: Seq<usize>,
    vals: Seq<usize>,
    node: int,
    lo: int,
    size: nat,
)
    requires
        max_tree_ok(d1, vals, node, lo, size),
        d2.len() == d1.len(),
        forall|m: int| 0 <= m < d1.len() && in_subtree(node, m) ==> d2[m] == d1[m],
    ensures
        max_tree_ok(d2, vals, node, lo, size),
    decreases size,
{
    assert(in_subtree(node, node));
    if size > 1 {
        assert forall|m: int|
            0 <= m < d1.len() && in_subtree(2 * node, m) implies d2[m] == d1[m] by {
            lemma_child_in_subtree(node, m);
        }
        assert forall|m: int|
            0 <= m < d1.len() && in_subtree(2 * node + 1, m) implies d2[m] == d1[m] by {
            lemma_child_in_subtree(node, m);
        }
        lemma_max_tree_frame(d1, d2, vals, 2 * node, lo, (size / 2) as nat);
        lemma_max_tree_frame(d1, d2, vals, 2 * node + 1, lo + size / 2, (size / 2) as nat);
        assert(in_subtree(node, 2 * node));
        assert(in_subtree(node, 2 * node + 1));
    }
}

proof fn lemma_max_tree_vals_agree(
    data: Seq<usize>,
    v1: Seq<usize>,
    v2: Seq<usize>,
    node: int,
    lo: int,
    size: nat,
)
    requires
        max_tree_ok(data, v1, node, lo, size),
        size >= 1,
        forall|i: int| lo <= i < lo + size ==> leaf_max(v1, i) == leaf_max(v2, i),
    ensures
        max_tree_ok(data, v2, node, lo, size),
    decreases size,
{
    if size > 1 {
        lemma_max_tree_vals_agree(data, v1, v2, 2 * node, lo, (size / 2) as nat);
        lemma_max_tree_vals_agree(data, v1, v2, 2 * node + 1, lo + size / 2, (size / 2) as nat);
    }
}

proof fn lemma_max_tree_leaf(
    data: Seq<usize>,
    vals: Seq<usize>,
    node: int,
    lo: int,
    size: nat,
    half: int,
    i: int,
)
    requires
        max_tree_ok(data, vals, node, lo, size),
        size >= 1,
        is_pow2(size),
        node * size == lo + half,
        lo <= i < lo + size,
    ensures
        half + i < data.len(),
        data[half + i] == leaf_max(vals, i),
    decreases size,
{
    if size <= 1 {
        assert(node * 1 == node) by (nonlinear_arith);
        assert(node == lo + half);
    } else {
        assert(size % 2 == 0 && is_pow2((size / 2) as nat));
        let h = (size / 2) as nat;
        assert(2 * node * h == node * size) by (nonlinear_arith)
            requires
                size % 2 == 0,
                h == size / 2,
        ;
        assert((2 * node + 1) * h == node * size + h) by (nonlinear_arith)
            requires
                size % 2 == 0,
                h == size / 2,
        ;
        if i < lo + size / 2 {
            lemma_max_tree_leaf(data, vals, 2 * node, lo, h, half, i);
        } else {
            lemma_max_tree_leaf(data, vals, 2 * node + 1, lo + size / 2, h, half, i);
        }
    }
}

/// Range Maximum Query
pub struct RmqMax {
    data: Vec<usize>,
    len: usize,
}

impl RmqMax {
    /// The stored array, as read back from the tree's leaves.
    pub closed spec fn values(self) -> Seq<usize> {
        self.data@.subrange(
            self.data@.len() as int / 2,
            self.data@.len() as int / 2 + self.len as int,
        )
    }

    /// The tree is well formed.
    pub closed spec fn wf(self) -> bool {
        if self.data.len() == 0 {
            self.len == 0
        } else {
            &&& is_pow2(self.data@.len() as nat)
            &&& self.data.len() >= 2
            &&& self.len <= self.data.len() / 2
            &&& self.data.len() <= 0x2000_0000
            &&& max_tree_ok(
                self.data@,
                self.values(),
                1,
                0,
                (self.data@.len() / 2) as nat,
            )
        }
    }

    pub open spec fn spec_len(self) -> nat {
        self.values().len()
    }

    /// Build Segment Tree (RMQMax) from slice.
    pub fn new(src: &Vec<usize>) -> (tree: Self)
        requires
            src@.len() <= 0x800_0000,
        ensures
            tree.wf(),
            tree.values() == src@,
    {
        if src.is_empty() {
            let tree = RmqMax { data: Vec::new(), len: 0 };
            proof {
                assert(tree.values() =~= src@);
            }
            return tree;
        }
        let n = determine_necessary_size_tree(src.len());
        let mut dst: Vec<usize> = Vec::new();
        let mut i: usize = 0;
        while i < n
            invariant
                dst@.len() == i,
                i <= n,
            decreases n - i,
        {
            dst.push(usize::MIN);
            i += 1;
        }
        proof {
            assert(n % 2 == 0 && is_pow2((n / 2) as nat));
            assert(1 * ((n / 2) as int) == 0 + (n as int) / 2) by (nonlinear_arith)
                requires
                    n % 2 == 0,
            ;
        }
        max_build_node(&mut dst, src, 1, 0, n / 2);
        let tree = RmqMax { data: dst, len: src.len() };
        proof {
            let half = (n as int) / 2;
            let size = (n / 2) as nat;
            assert forall|i: int| 0 <= i < src@.len() implies tree.values()[i] == src@[i] by {
                lemma_max_tree_leaf(tree.data@, src@, 1, 0, size, half, i);
            }
            assert(tree.values() =~= src@);
            lemma_max_tree_vals_agree(tree.data@, src@, tree.values(), 1, 0, size);
        }
        tree
    }

    /// Returns the maximum on the interval l to r (inclusive, in either order).
    pub fn query(&self, l: usize, r: usize) -> (res: Option<usize>)
        requires
            self.wf(),
        ensures
            res == self.spec_query(l, r),
    {
        if self.data.is_empty() || l >= self.len || r >= self.len {
            return None;
        }
        let (a, b) = if l <= r {
            (l, r)
        } else {
            (r, l)
        };
        proof {
            assert(1 * ((self.data@.len() / 2) as int) == 0 + self.data@.len() as int / 2)
                by (nonlinear_arith);
        }
        let res = max_query_node(
            &self.data,
            Ghost(self.values()),
            1,
            0,
            self.data.len() / 2,
            a,
            b + 1,
        );
        Some(res)
    }

    /// What `query` returns: the maximum over the values between the two
    /// endpoints, taken in either order, or nothing when an endpoint is out
    /// of range.
    pub open spec fn spec_query(self, l: usize, r: usize) -> Option<usize> {
        if self.spec_len() == 0 || l >= self.spec_len() || r >= self.spec_len() {
            None
        } else {
            let a = if l <= r {
                l as int
            } else {
                r as int
            };
            let b = if l <= r {
                r as int
            } else {
                l as int
            };
            Some(range_max(self.values(), a, b + 1))
        }
    }

    /// Update value by index
    pub fn update(&mut self, idx: usize, value: usize)
        requires
            old(self).wf(),
        ensures
            final(self).wf(),
            final(self).spec_len() == old(self).spec_len(),
            idx < old(self).spec_len() ==> final(self).values() == old(self).values().update(
                idx as int,
                value,
            ),
            idx >= old(self).spec_len() ==> final(self).values() == old(self).values(),
    {
        if !self.data.is_empty() && idx < self.len {
            let ghost old_vals = self.values();
            let ghost new_vals = self.values().update(idx as int, value);
            let n = self.data.len();
            proof {
                assert(1 * ((n / 2) as int) == 0 + (n as int) / 2) by (nonlinear_arith);
            }
            max_update_node(
                &mut self.data,
                Ghost(old_vals),
                Ghost(new_vals),
                1,
                0,
                n / 2,
                idx,
                value,
            );
            proof {
                let half = (n as int) / 2;
                let size = (n / 2) as nat;
                assert forall|i: int| 0 <= i < new_vals.len() implies self.values()[i]
                    == new_vals[i] by {
                    lemma_max_tree_leaf(self.data@, new_vals, 1, 0, size, half, i);
                }
                assert(self.values() =~= new_vals);
                lemma_max_tree_vals_agree(self.data@, new_vals, self.values(), 1, 0, size);
            }
        }
    }
}

/// Fills the subtree rooted at `node` from the source array.
fn max_build_node(data: &mut Vec<usize>, src: &Vec<usize>, node: usize, lo: usize, size: usize)
    requires
        size >= 1,
        is_pow2(size as nat),
        old(data).len() >= 2,
        is_pow2(old(data)@.len() as nat),
        old(data).len() <= 0x2000_0000,
        lo + size <= old(data).len() / 2,
        node * size == lo + old(data).len() / 2,
    ensures
        final(data).len() == old(data).len(),
        forall|m: int|
            0 <= m < final(data).len() && !in_subtree(node as int, m) ==> final(data)@[m] == old(
                data,
            )@[m],
        max_tree_ok(final(data)@, src@, node as int, lo as int, size as nat),
    decreases size,
{
    let ghost half = old(data)@.len() as int / 2;
    proof {
        assert(node * size >= half >= size) by (nonlinear_arith)
            requires
                node * size == lo + half,
                lo >= 0,
                size <= half,
        ;
        assert(node >= 1) by (nonlinear_arith)
            requires
                node * size >= size,
                size >= 1,
        ;
        assert(node < 2 * half) by (nonlinear_arith)
            requires
                node * size == lo + half,
                lo + size <= half,
                size >= 1,
                node >= 1,
        ;
    }
    if size == 1 {
        let v = if lo < src.len() {
            src[lo]
        } else {
            usize::MIN
        };
        data[node] = v;
        proof {
            assert(in_subtree(node as int, node as int));
        }
    } else {
        proof {
            assert(size % 2 == 0 && is_pow2((size / 2) as nat));
            assert((2 * node) * ((size / 2) as int) == lo + half) by (nonlinear_arith)
                requires
                    node * size == lo + half,
                    size % 2 == 0,
            ;
            assert((2 * node + 1) * ((size / 2) as int) == lo + size / 2 + half)
                by (nonlinear_arith)
                requires
                    node * size == lo + half,
                    size % 2 == 0,
            ;
        }
        let ghost data0 = data@;
        max_build_node(data, src, 2 * node, lo, size / 2);
        let ghost data1 = data@;
        max_build_node(data, src, 2 * node + 1, lo + size / 2, size / 2);
        proof {
            assert forall|m: int|
                0 <= m < data@.len() && in_subtree(2 * node as int, m) implies data@[m]
                == data1[m] by {
                if in_subtree(2 * node + 1 as int, m) {
                    lemma_siblings_disjoint(node as int, m);
                }
            }
            lemma_max_tree_frame(
                data1,
                data@,
                src@,
                2 * node as int,
                lo as int,
                (size / 2) as nat,
            );
        }
        let a = data[2 * node];
        let b = data[2 * node + 1];
        let m = if a >= b {
            a
        } else {
            b
        };
        let ghost data2 = data@;
        data[node] = m;
        proof {
            lemma_not_in_own_strict_subtree(node as int);
            assert forall|mm: int|
                0 <= mm < data@.len() && in_subtree(2 * node as int, mm) implies data@[mm]
                == data2[mm] by {
                if mm == node {
                    lemma_siblings_disjoint(node as int, mm);
                }
            }
            assert forall|mm: int|
                0 <= mm < data@.len() && in_subtree(2 * node + 1 as int, mm) implies data@[mm]
                == data2[mm] by {}
            lemma_max_tree_frame(
                data2,
                data@,
                src@,
                2 * node as int,
                lo as int,
                (size / 2) as nat,
            );
            lemma_max_tree_frame(
                data2,
                data@,
                src@,
                2 * node + 1 as int,
                lo as int + size as int / 2,
                (size / 2) as nat,
            );
            assert forall|m: int|
                0 <= m < data.len() && !in_subtree(node as int, m) implies data@[m]
                == data0[m] by {
                lemma_child_in_subtree(node as int, m);
            }
        }
    }
}

/// Returns the maximum over the intersection of the query range `[l, hi)`
/// with the leaf range of `node`.
fn max_query_node(
    data: &Vec<usize>,
    Ghost(vals): Ghost<Seq<usize>>,
    node: usize,
    lo: usize,
    size: usize,
    l: usize,
    hi: usize,
) -> (res: usize)
    requires
        size >= 1,
        is_pow2(size as nat),
        max_tree_ok(data@, vals, node as int, lo as int, size as nat),
        lo + size <= data.len(),
        hi <= data.len(),
        l < hi,
        data.len() <= 0x2000_0000,
    ensures
        res == range_max(
            vals,
            if l >= lo {
                l as int
            } else {
                lo as int
            },
            if hi <= lo + size {
                hi as int
            } else {
                lo as int + size as int
            },
        ),
    decreases size,
{
    let ghost a: int = if l >= lo {
        l as int
    } else {
        lo as int
    };
    let ghost b: int = if hi <= lo + size {
        hi as int
    } else {
        lo as int + size as int
    };
    if hi <= lo || l >= lo + size {
        proof {
            assert(b <= a);
        }
        return usize::MIN;
    }
    if l <= lo && lo + size <= hi {
        proof {
            lemma_max_tree_node_value(data@, vals, node as int, lo as int, size as nat);
        }
        return data[node];
    }
    proof {
        assert(size >= 2);
        assert(size % 2 == 0 && is_pow2((size / 2) as nat));
    }
    let left = max_query_node(data, Ghost(vals), 2 * node, lo, size / 2, l, hi);
    let right = max_query_node(data, Ghost(vals), 2 * node + 1, lo + size / 2, size / 2, l, hi);
    let res = if left >= right {
        left
    } else {
        right
    };
    proof {
        let mid = lo as int + size as int / 2;
        let la: int = if l >= lo {
            l as int
        } else {
            lo as int
        };
        let lb: int = if hi <= mid {
            hi as int
        } else {
            mid
        };
        let ra: int = if l as int >= mid {
            l as int
        } else {
            mid
        };
        let rb: int = b;
        if b <= mid {
            assert(right == usize::MIN);
            assert(lb == b);
            lemma_range_max_concat(vals, a, a, b);
        } else if a >= mid {
            assert(left == usize::MIN);
            lemma_range_max_concat(vals, a, a, b);
        } else {
            assert(la == a && lb == mid && ra == mid && rb == b);
            lemma_range_max_concat(vals, a, mid, b);
        }
    }
    res
}

/// Rewrites the path from `node` down to the leaf holding position `idx`.
fn max_update_node(
    data: &mut Vec<usize>,
    Ghost(vals): Ghost<Seq<usize>>,
    Ghost(new_vals): Ghost<Seq<usize>>,
    node: usize,
    lo: usize,
    size: usize,
    idx: usize,
    value: usize,
)
    requires
        size >= 1,
        is_pow2(size as nat),
        max_tree_ok(old(data)@, vals, node as int, lo as int, size as nat),
        old(data).len() <= 0x2000_0000,
        lo + size <= old(data).len(),
        lo <= idx < lo + size,
        new_vals == vals.update(idx as int, value as usize),
        0 <= idx < vals.len(),
    ensures
        final(data).len() == old(data).len(),
        forall|m: int|
            0 <= m < final(data).len() && !in_subtree(node as int, m) ==> final(data)@[m] == old(
                data,
            )@[m],
        max_tree_ok(final(data)@, new_vals, node as int, lo as int, size as nat),
    decreases size,
{
    if size == 1 {
        proof {
            assert(in_subtree(node as int, node as int));
        }
        data[node] = value;
    } else {
        proof {
            assert(size % 2 == 0 && is_pow2((size / 2) as nat));
        }
        let ghost data0 = data@;
        if idx < lo + size / 2 {
            max_update_node(data, Ghost(vals), Ghost(new_vals), 2 * node, lo, size / 2, idx, value);
            proof {
                assert forall|m: int|
                    0 <= m < data@.len() && in_subtree(2 * node + 1 as int, m) implies data@[m]
                    == data0[m] by {
                    if in_subtree(2 * node as int, m) {
                        lemma_siblings_disjoint(node as int, m);
                    }
                }
                lemma_max_tree_frame(
                    data0,
                    data@,
                    vals,
                    2 * node + 1 as int,
                    lo as int + size as int / 2,
                    (size / 2) as nat,
                );
                lemma_max_tree_vals_agree(
                    data@,
                    vals,
                    new_vals,
                    2 * node + 1 as int,
                    lo as int + size as int / 2,
                    (size / 2) as nat,
                );
            }
        } else {
            max_update_node(
                data,
                Ghost(vals),
                Ghost(new_vals),
                2 * node + 1,
                lo + size / 2,
                size / 2,
                idx,
                value,
            );
            proof {
                assert forall|m: int|
                    0 <= m < data@.len() && in_subtree(2 * node as int, m) implies data@[m]
                    == data0[m] by {
                    if in_subtree(2 * node + 1 as int, m) {
                        lemma_siblings_disjoint(node as int, m);
                    }
                }
                lemma_max_tree_frame(
                    data0,
                    data@,
                    vals,
                    2 * node as int,
                    lo as int,
                    (size / 2) as nat,
                );
                lemma_max_tree_vals_agree(
                    data@,
                    vals,
                    new_vals,
                    2 * node as int,
                    lo as int,
                    (size / 2) as nat,
                );
            }
        }
        let a = data[2 * node];
        let b = data[2 * node + 1];
        let m = if a >= b {
            a
        } else {
            b
        };
        let ghost data2 = data@;
        data[node] = m;
        proof {
            lemma_not_in_own_strict_subtree(node as int);
            assert forall|mm: int|
                0 <= mm < data@.len() && (in_subtree(2 * node as int, mm) || in_subtree(
                    2 * node + 1 as int,
                    mm,
                )) implies data@[mm] == data2[mm] by {}
            lemma_max_tree_frame(
                data2,
                data@,
                new_vals,
                2 * node as int,
                lo as int,
                (size / 2) as nat,
            );
            lemma_max_tree_frame(
                data2,
                data@,
                new_vals,
                2 * node + 1 as int,
                lo as int + size as int / 2,
                (size / 2) as nat,
            );
            assert forall|m: int|
                0 <= m < data.len() && !in_subtree(node as int, m) implies data@[m]
                == data0[m] by {
                lemma_child_in_subtree(node as int, m);
            }
        }
    }
}



/// The leaf value at position `i`: the stored value inside the array,
/// zero outside it.
pub open spec fn leaf_sum(vals: Seq<i64>, i: int) -> i64 {
    if 0 <= i < vals.len() {
        vals[i]
    } else {
        0
    }
}

/// Every stored value fits in 32 bits.
pub open spec fn leaves_bounded(vals: Seq<i64>) -> bool {
    forall|i: int| 0 <= i < vals.len() ==> -0x8000_0000 <= #[trigger] vals[i] <= 0x7FFF_FFFF
}

/// The sum of the (padded) leaf values over positions `[lo, hi)`.
pub open spec fn range_sum(vals: Seq<i64>, lo: int, hi: int) -> int
    decreases hi - lo,
{
    if hi <= lo {
        0
    } else {
        leaf_sum(vals, lo) + range_sum(vals, lo + 1, hi)
    }
}

/// An i32 array widened to the i64 values the tree stores.
pub open spec fn widen(s: Seq<i32>) -> Seq<i64> {
    s.map_values(|x: i32| x as i64)
}

/// The subtree rooted at `node`, covering leaf positions `[lo, lo + size)`,
/// stores at every inner node the sum of its two children and at every
/// leaf the (padded) array value.
pub open spec fn sum_tree_ok(data: Seq<i64>, vals: Seq<i64>, node: int, lo: int, size: nat) -> bool
    decreases size,
{
    &&& 1 <= node < data.len()
    &&& if size <= 1 {
        data[node] == leaf_sum(vals, lo)
    } else {
        &&& data[node] == data[2 * node] + data[2 * node + 1]
        &&& sum_tree_ok(data, vals, 2 * node, lo, (size / 2) as nat)
        &&& sum_tree_ok(data, vals, 2 * node + 1, lo + size / 2, (size / 2) as nat)
    }
}

proof fn lemma_range_sum_concat(vals: Seq<i64>, lo: int, mid: int, hi: int)
    requires
        lo <= mid <= hi,
    ensures
        range_sum(vals, lo, hi) == range_sum(vals, lo, mid) + range_sum(vals, mid, hi),
    decreases mid - lo,
{
    if lo < mid {
        lemma_range_sum_concat(vals, lo + 1, mid, hi);
    }
}

proof fn lemma_range_sum_bound(vals: Seq<i64>, lo: int, hi: int)
    requires
        leaves_bounded(vals),
        lo <= hi,
    ensures
        -(hi - lo) * 0x8000_0000 <= range_sum(vals, lo, hi) <= (hi - lo) * 0x8000_0000,
    decreases hi - lo,
{
    if lo < hi {
        lemma_range_sum_bound(vals, lo + 1, hi);
    }
}

proof fn lemma_sum_tree_node_value(data: Seq<i64>, vals: Seq<i64>, node: int, lo: int, size: nat)
    requires
        sum_tree_ok(data, vals, node, lo, size),
        size >= 1,
        is_pow2(size),
    ensures
        data[node] == range_sum(vals, lo, lo + size),
    decreases size,
{
    if size <= 1 {
        assert(range_sum(vals, lo + 1, lo + size) == 0);
    } else {
        assert(size % 2 == 0 && is_pow2((size / 2) as nat));
        assert(size / 2 + size / 2 == size);
        lemma_sum_tree_node_value(data, vals, 2 * node, lo, (size / 2) as nat);
        lemma_sum_tree_node_value(data, vals, 2 * node + 1, lo + size / 2, (size / 2) as nat);
        lemma_range_sum_concat(vals, lo, lo + size / 2, lo + size);
    }
}

proof fn lemma_sum_tree_frame(
    d1: Seq<i64>,
    d2: Seq<i64>,
    vals: Seq<i64>,
    node: int,
    lo: int,
    size: nat,
)
    requires
        sum_tree_ok(d1, vals, node, lo, size),
        d2.len() == d1.len(),
        forall|m: int| 0 <= m < d1.len() && in_subtree(node, m) ==> d2[m] == d1[m],
    ensures
        sum_tree_ok(d2, vals, node, lo, size),
    decreases size,
{
    assert(in_subtree(node, node));
    if size > 1 {
        assert forall|m: int|
            0 <= m < d1.len() && in_subtree(2 * node, m) implies d2[m] == d1[m] by {
            lemma_child_in_subtree(node, m);
        }
        assert forall|m: int|
            0 <= m < d1.len() && in_subtree(2 * node + 1, m) implies d2[m] == d1[m] by {
            lemma_child_in_subtree(node, m);
        }
        lemma_sum_tree_frame(d1, d2, vals, 2 * node, lo, (size / 2) as nat);
        lemma_sum_tree_frame(d1, d2, vals, 2 * node + 1, lo + size / 2, (size / 2) as nat);
        assert(in_subtree(node, 2 * node));
        assert(in_subtree(node, 2 * node + 1));
    }
}

proof fn lemma_sum_tree_vals_agree(
    data: Seq<i64>,
    v1: Seq<i64>,
    v2: Seq<i64>,
    node: int,
    lo: int,
    size: nat,
)
    requires
        sum_tree_ok(data, v1, node, lo, size),
        size >= 1,
        forall|i: int| lo <= i < lo + size ==> leaf_sum(v1, i) == leaf_sum(v2, i),
    ensures
        sum_tree_ok(data, v2, node, lo, size),
    decreases size,
{
    if size > 1 {
        lemma_sum_tree_vals_agree(data, v1, v2, 2 * node, lo, (size / 2) as nat);
        lemma_sum_tree_vals_agree(data, v1, v2, 2 * node + 1, lo + size / 2, (size / 2) as nat);
    }
}

proof fn lemma_sum_tree_leaf(
    data: Seq<i64>,
    vals: Seq<i64>,
    node: int,
    lo: int,
    size: nat,
    half: int,
    i: int,
)
    requires
        sum_tree_ok(data, vals, node, lo, size),
        size >= 1,
        is_pow2(size),
        node * size == lo + half,
        lo <= i < lo + size,
    ensures
        half + i < data.len(),
        data[half + i] == leaf_sum(vals, i),
    decreases size,
{
    if size <= 1 {
        assert(node * 1 == node) by (nonlinear_arith);
        assert(node == lo + half);
    } else {
        assert(size % 2 == 0 && is_pow2((size / 2) as nat));
        let h = (size / 2) as nat;
        assert(2 * node * h == node * size) by (nonlinear_arith)
            requires
                size % 2 == 0,
                h == size / 2,
        ;
        assert((2 * node + 1) * h == node * size + h) by (nonlinear_arith)
            requires
                size % 2 == 0,
                h == size / 2,
        ;
        if i < lo + size / 2 {
            lemma_sum_tree_leaf(data, vals, 2 * node, lo, h, half, i);
        } else {
            lemma_sum_tree_leaf(data, vals, 2 * node + 1, lo + size / 2, h, half, i);
        }
    }
}

/// Range Sum Query
pub struct Rsq {
    data: Vec<i64>,
    len: usize,
}

impl Rsq {
    /// The stored array, as read back from the tree's leaves.
    pub closed spec fn values(self) -> Seq<i64> {
        self.data@.subrange(
            self.data@.len() as int / 2,
            self.data@.len() as int / 2 + self.len as int,
        )
    }

    /// The tree is well formed.
    pub closed spec fn wf(self) -> bool {
        if self.data.len() == 0 {
            self.len == 0
        } else {
            &&& is_pow2(self.data@.len() as nat)
            &&& self.data.len() >= 2
            &&& self.len <= self.data.len() / 2
            &&& self.data.len() <= 0x2000_0000
            &&& leaves_bounded(self.values())
            &&& sum_tree_ok(
                self.data@,
                self.values(),
                1,
                0,
                (self.data@.len() / 2) as nat,
            )
        }
    }

    pub open spec fn spec_len(self) -> nat {
        self.values().len()
    }

    /// Build Segment Tree (RSQ) from slice.
    pub fn new(src: &Vec<i32>) -> (tree: Self)
        requires
            src@.len() <= 0x800_0000,
        ensures
            tree.wf(),
            tree.values() == widen(src@),
    {
        if src.is_empty() {
            let tree = Rsq { data: Vec::new(), len: 0 };
            proof {
                assert(tree.values() =~= widen(src@));
            }
            return tree;
        }
        let n = determine_necessary_size_tree(src.len());
        let mut dst: Vec<i64> = Vec::new();
        let mut i: usize = 0;
        while i < n
            invariant
                dst@.len() == i,
                i <= n,
            decreases n - i,
        {
            dst.push(0);
            i += 1;
        }
        proof {
            assert(n % 2 == 0 && is_pow2((n / 2) as nat));
            assert(1 * ((n / 2) as int) == 0 + (n as int) / 2) by (nonlinear_arith)
                requires
                    n % 2 == 0,
            ;
        }
        sum_build_node(&mut dst, src, 1, 0, n / 2);
        let tree = Rsq { data: dst, len: src.len() };
        proof {
            let half = (n as int) / 2;
            let size = (n / 2) as nat;
            assert forall|i: int| 0 <= i < widen(src@).len() implies tree.values()[i] == widen(
                src@,
            )[i] by {
                lemma_sum_tree_leaf(tree.data@, widen(src@), 1, 0, size, half, i);
            }
            assert(tree.values() =~= widen(src@));
            lemma_sum_tree_vals_agree(tree.data@, widen(src@), tree.values(), 1, 0, size);
        }
        tree
    }

    /// Returns the sum on the interval l to r (inclusive, in either order).
    pub fn query(&self, l: usize, r: usize) -> (res: Option<i64>)
        requires
            self.wf(),
        ensures
            (res is None) <==> (self.spec_len() == 0 || l >= self.spec_len() || r
                >= self.spec_len()),
            res matches Some(v) ==> v == range_sum(
                self.values(),
                if l <= r {
                    l as int
                } else {
                    r as int
                },
                (if l <= r {
                    r as int
                } else {
                    l as int
                }) + 1,
            ),
    {
        if self.data.is_empty() || l >= self.len || r >= self.len {
            return None;
        }
        let (a, b) = if l <= r {
            (l, r)
        } else {
            (r, l)
        };
        proof {
            assert(1 * ((self.data@.len() / 2) as int) == 0 + self.data@.len() as int / 2)
                by (nonlinear_arith);
        }
        let res = sum_query_node(
            &self.data,
            Ghost(self.values()),
            1,
            0,
            self.data.len() / 2,
            a,
            b + 1,
        );
        Some(res)
    }

    /// Update value by index
    pub fn update(&mut self, idx: usize, value: i32)
        requires
            old(self).wf(),
        ensures
            final(self).wf(),
            final(self).spec_len() == old(self).spec_len(),
            idx < old(self).spec_len() ==> final(self).values() == old(self).values().update(
                idx as int,
                value as i64,
            ),
            idx >= old(self).spec_len() ==> final(self).values() == old(self).values(),
    {
        if !self.data.is_empty() && idx < self.len {
            let ghost old_vals = self.values();
            let ghost new_vals = self.values().update(idx as int, value as i64);
            let n = self.data.len();
            proof {
                assert(1 * ((n / 2) as int) == 0 + (n as int) / 2) by (nonlinear_arith);
            }
            sum_update_node(
                &mut self.data,
                Ghost(old_vals),
                Ghost(new_vals),
                1,
                0,
                n / 2,
                idx,
                value,
            );
            proof {
                let half = (n as int) / 2;
                let size = (n / 2) as nat;
                assert forall|i: int| 0 <= i < new_vals.len() implies self.values()[i]
                    == new_vals[i] by {
                    lemma_sum_tree_leaf(self.data@, new_vals, 1, 0, size, half, i);
                }
                assert(self.values() =~= new_vals);
                lemma_sum_tree_vals_agree(self.data@, new_vals, self.values(), 1, 0, size);
            }
        }
    }
}

/// Fills the subtree rooted at `node` from the source array.
fn sum_build_node(data: &mut Vec<i64>, src: &Vec<i32>, node: usize, lo: usize, size: usize)
    requires
        size >= 1,
        is_pow2(size as nat),
        old(data).len() >= 2,
        is_pow2(old(data)@.len() as nat),
        old(data).len() <= 0x2000_0000,
        lo + size <= old(data).len() / 2,
        node * size == lo + old(data).len() / 2,
    ensures
        final(data).len() == old(data).len(),
        forall|m: int|
            0 <= m < final(data).len() && !in_subtree(node as int, m) ==> final(data)@[m] == old(
                data,
            )@[m],
        sum_tree_ok(final(data)@, widen(src@), node as int, lo as int, size as nat),
    decreases size,
{
    let ghost half = old(data)@.len() as int / 2;
    let ghost vals = widen(src@);
    proof {
        assert(node * size >= half >= size) by (nonlinear_arith)
            requires
                node * size == lo + half,
                lo >= 0,
                size <= half,
        ;
        assert(node >= 1) by (nonlinear_arith)
            requires
                node * size >= size,
                size >= 1,
        ;
        assert(node < 2 * half) by (nonlinear_arith)
            requires
                node * size == lo + half,
                lo + size <= half,
                size >= 1,
                node >= 1,
        ;
    }
    if size == 1 {
        let v: i64 = if lo < src.len() {
            src[lo] as i64
        } else {
            0
        };
        data[node] = v;
        proof {
            assert(in_subtree(node as int, node as int));
        }
    } else {
        proof {
            assert(size % 2 == 0 && is_pow2((size / 2) as nat));
            assert((2 * node) * ((size / 2) as int) == lo + half) by (nonlinear_arith)
                requires
                    node * size == lo + half,
                    size % 2 == 0,
            ;
            assert((2 * node + 1) * ((size / 2) as int) == lo + size / 2 + half)
                by (nonlinear_arith)
                requires
                    node * size == lo + half,
                    size % 2 == 0,
            ;
        }
        let ghost data0 = data@;
        sum_build_node(data, src, 2 * node, lo, size / 2);
        let ghost data1 = data@;
        sum_build_node(data, src, 2 * node + 1, lo + size / 2, size / 2);
        proof {
            assert forall|m: int|
                0 <= m < data@.len() && in_subtree(2 * node as int, m) implies data@[m]
                == data1[m] by {
                if in_subtree((2 * node + 1) as int, m) {
                    lemma_siblings_disjoint(node as int, m);
                }
            }
            lemma_sum_tree_frame(
                data1,
                data@,
                vals,
                2 * node as int,
                lo as int,
                (size / 2) as nat,
            );
            assert(leaves_bounded(vals));
            lemma_sum_tree_node_value(data@, vals, 2 * node as int, lo as int, (size / 2) as nat);
            lemma_sum_tree_node_value(
                data@,
                vals,
                (2 * node + 1) as int,
                lo as int + size as int / 2,
                (size / 2) as nat,
            );
            lemma_range_sum_bound(vals, lo as int, lo as int + size as int / 2);
            lemma_range_sum_bound(
                vals,
                lo as int + size as int / 2,
                lo as int + size as int / 2 + size as int / 2,
            );
        }
        let a = data[2 * node];
        let b = data[2 * node + 1];
        let m = a + b;
        let ghost data2 = data@;
        data[node] = m;
        proof {
            lemma_not_in_own_strict_subtree(node as int);
            assert forall|mm: int|
                0 <= mm < data@.len() && in_subtree(2 * node as int, mm) implies data@[mm]
                == data2[mm] by {
                if mm == node {
                    lemma_siblings_disjoint(node as int, mm);
                }
            }
            assert forall|mm: int|
                0 <= mm < data@.len() && in_subtree((2 * node + 1) as int, mm) implies data@[mm]
                == data2[mm] by {}
            lemma_sum_tree_frame(
                data2,
                data@,
                vals,
                2 * node as int,
                lo as int,
                (size / 2) as nat,
            );
            lemma_sum_tree_frame(
                data2,
                data@,
                vals,
                (2 * node + 1) as int,
                lo as int + size as int / 2,
                (size / 2) as nat,
            );
            assert forall|m: int|
                0 <= m < data.len() && !in_subtree(node as int, m) implies data@[m]
                == data0[m] by {
                lemma_child_in_subtree(node as int, m);
            }
        }
    }
}

/// Returns the sum over the intersection of the query range `[l, hi)`
/// with the leaf range of `node`.
fn sum_query_node(
    data: &Vec<i64>,
    Ghost(vals): Ghost<Seq<i64>>,
    node: usize,
    lo: usize,
    size: usize,
    l: usize,
    hi: usize,
) -> (res: i64)
    requires
        size >= 1,
        is_pow2(size as nat),
        sum_tree_ok(data@, vals, node as int, lo as int, size as nat),
        leaves_bounded(vals),
        lo + size <= data.len(),
        hi <= data.len(),
        l < hi,
        data.len() <= 0x2000_0000,
    ensures
        res == range_sum(
            vals,
            if l >= lo {
                l as int
            } else {
                lo as int
            },
            if hi <= lo + size {
                hi as int
            } else {
                lo as int + size as int
            },
        ),
    decreases size,
{
    let ghost a: int = if l >= lo {
        l as int
    } else {
        lo as int
    };
    let ghost b: int = if hi <= lo + size {
        hi as int
    } else {
        lo as int + size as int
    };
    if hi <= lo || l >= lo + size {
        proof {
            assert(b <= a);
        }
        return 0;
    }
    if l <= lo && lo + size <= hi {
        proof {
            lemma_sum_tree_node_value(data@, vals, node as int, lo as int, size as nat);
        }
        return data[node];
    }
    proof {
        assert(size >= 2);
        assert(size % 2 == 0 && is_pow2((size / 2) as nat));
    }
    let left = sum_query_node(data, Ghost(vals), 2 * node, lo, size / 2, l, hi);
    let right = sum_query_node(data, Ghost(vals), 2 * node + 1, lo + size / 2, size / 2, l, hi);
    proof {
        let mid = lo as int + size as int / 2;
        let la: int = if l >= lo {
            l as int
        } else {
            lo as int
        };
        let lb: int = if hi <= mid {
            hi as int
        } else {
            mid
        };
        let ra: int = if l as int >= mid {
            l as int
        } else {
            mid
        };
        let rb: int = b;
        if lb > la {
            lemma_range_sum_bound(vals, la, lb);
        }
        if rb > ra {
            lemma_range_sum_bound(vals, ra, rb);
        }
        if b <= mid {
            assert(right == 0);
            assert(lb == b);
        } else if a >= mid {
            assert(left == 0);
        } else {
            assert(la == a && lb == mid && ra == mid && rb == b);
            lemma_range_sum_concat(vals, a, mid, b);
        }
    }
    let res = left + right;
    res
}

/// Rewrites the path from `node` down to the leaf holding position `idx`.
fn sum_update_node(
    data: &mut Vec<i64>,
    Ghost(vals): Ghost<Seq<i64>>,
    Ghost(new_vals): Ghost<Seq<i64>>,
    node: usize,
    lo: usize,
    size: usize,
    idx: usize,
    value: i32,
)
    requires
        size >= 1,
        is_pow2(size as nat),
        sum_tree_ok(old(data)@, vals, node as int, lo as int, size as nat),
        old(data).len() <= 0x2000_0000,
        lo + size <= old(data).len(),
        lo <= idx < lo + size,
        new_vals == vals.update(idx as int, value as i64),
        leaves_bounded(vals),
        0 <= idx < vals.len(),
    ensures
        final(data).len() == old(data).len(),
        forall|m: int|
            0 <= m < final(data).len() && !in_subtree(node as int, m) ==> final(data)@[m] == old(
                data,
            )@[m],
        sum_tree_ok(final(data)@, new_vals, node as int, lo as int, size as nat),
    decreases size,
{
    proof {
        assert(leaves_bounded(new_vals));
    }
    if size == 1 {
        proof {
            assert(in_subtree(node as int, node as int));
        }
        data[node] = value as i64;
    } else {
        proof {
            assert(size % 2 == 0 && is_pow2((size / 2) as nat));
        }
        let ghost data0 = data@;
        if idx < lo + size / 2 {
            sum_update_node(data, Ghost(vals), Ghost(new_vals), 2 * node, lo, size / 2, idx, value);
            proof {
                assert forall|m: int|
                    0 <= m < data@.len() && in_subtree((2 * node + 1) as int, m) implies data@[m]
                    == data0[m] by {
                    if in_subtree(2 * node as int, m) {
                        lemma_siblings_disjoint(node as int, m);
                    }
                }
                lemma_sum_tree_frame(
                    data0,
                    data@,
                    vals,
                    (2 * node + 1) as int,
                    lo as int + size as int / 2,
                    (size / 2) as nat,
                );
                lemma_sum_tree_vals_agree(
                    data@,
                    vals,
                    new_vals,
                    (2 * node + 1) as int,
                    lo as int + size as int / 2,
                    (size / 2) as nat,
                );
            }
        } else {
            sum_update_node(
                data,
                Ghost(vals),
                Ghost(new_vals),
                2 * node + 1,
                lo + size / 2,
                size / 2,
                idx,
                value,
            );
            proof {
                assert forall|m: int|
                    0 <= m < data@.len() && in_subtree(2 * node as int, m) implies data@[m]
                    == data0[m] by {
                    if in_subtree((2 * node + 1) as int, m) {
                        lemma_siblings_disjoint(node as int, m);
                    }
                }
                lemma_sum_tree_frame(
                    data0,
                    data@,
                    vals,
                    2 * node as int,
                    lo as int,
                    (size / 2) as nat,
                );
                lemma_sum_tree_vals_agree(
                    data@,
                    vals,
                    new_vals,
                    2 * node as int,
                    lo as int,
                    (size / 2) as nat,
                );
            }
        }
        proof {
            lemma_sum_tree_node_value(
                data@,
                new_vals,
                2 * node as int,
                lo as int,
                (size / 2) as nat,
            );
            lemma_sum_tree_node_value(
                data@,
                new_vals,
                (2 * node + 1) as int,
                lo as int + size as int / 2,
                (size / 2) as nat,
            );
            lemma_range_sum_bound(new_vals, lo as int, lo as int + size as int / 2);
            lemma_range_sum_bound(
                new_vals,
                lo as int + size as int / 2,
                lo as int + size as int / 2 + size as int / 2,
            );
        }
        let a = data[2 * node];
        let b = data[2 * node + 1];
        let m = a + b;
        let ghost data2 = data@;
        data[node] = m;
        proof {
            lemma_not_in_own_strict_subtree(node as int);
            assert forall|mm: int|
                0 <= mm < data@.len() && (in_subtree(2 * node as int, mm) || in_subtree(
                    (2 * node + 1) as int,
                    mm,
                )) implies data@[mm] == data2[mm] by {}
            lemma_sum_tree_frame(
                data2,
                data@,
                new_vals,
                2 * node as int,
                lo as int,
                (size / 2) as nat,
            );
            lemma_sum_tree_frame(
                data2,
                data@,
                new_vals,
                (2 * node + 1) as int,
                lo as int + size as int / 2,
                (size / 2) as nat,
            );
            assert forall|m: int|
                0 <= m < data.len() && !in_subtree(node as int, m) implies data@[m]
                == data0[m] by {
                lemma_child_in_subtree(node as int, m);
            }
        }
    }
}

} // verus!
