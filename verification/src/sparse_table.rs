use vstd::prelude::*;

verus! {

/// `2^k`.
pub open spec fn p2(k: nat) -> nat
    decreases k,
{
    if k == 0 {
        1
    } else {
        2 * p2((k - 1) as nat)
    }
}

/// `p2` is monotone.
proof fn lemma_p2_mono(a: nat, b: nat)
    requires
        a <= b,
    ensures
        p2(a) <= p2(b),
    decreases b,
{
    if a < b {
        lemma_p2_mono(a, (b - 1) as nat);
    }
}

/// `p2` is positive.
proof fn lemma_p2_pos(k: nat)
    ensures
        p2(k) >= 1,
    decreases k,
{
    if k > 0 {
        lemma_p2_pos((k - 1) as nat);
    }
}

/// `p2` dominates its argument.
proof fn lemma_p2_ge(k: nat)
    ensures
        p2(k) >= k + 1,
    decreases k,
{
    if k > 0 {
        lemma_p2_ge((k - 1) as nat);
    }
}

pub open spec fn min2_i64(a: i64, b: i64) -> i64 {
    if a <= b {
        a
    } else {
        b
    }
}

/// The minimum of `s[lo..hi)`, the range clipped to the array; the greatest
/// value on an empty range.
pub open spec fn rmin(s: Seq<i64>, lo: int, hi: int) -> i64
    decreases hi - lo,
{
    if hi <= lo || lo < 0 || lo >= s.len() {
        i64::MAX
    } else {
        min2_i64(s[lo], rmin(s, lo + 1, hi))
    }
}

proof fn lemma_rmin_concat(s: Seq<i64>, lo: int, mid: int, hi: int)
    requires
        0 <= lo <= mid <= hi,
    ensures
        rmin(s, lo, hi) == min2_i64(rmin(s, lo, mid), rmin(s, mid, hi)),
    decreases mid - lo,
{
    if lo < mid {
        if lo >= s.len() {
            assert(rmin(s, lo, hi) == i64::MAX);
            assert(rmin(s, lo, mid) == i64::MAX);
            assert(rmin(s, mid, hi) == i64::MAX);
        } else {
            lemma_rmin_concat(s, lo + 1, mid, hi);
        }
    }
}

/// The minimum over a subrange is no smaller than over the whole range.
proof fn lemma_rmin_subset(s: Seq<i64>, lo: int, hi: int, lo2: int, hi2: int)
    requires
        0 <= lo <= lo2 <= hi2 <= hi,
    ensures
        rmin(s, lo2, hi2) >= rmin(s, lo, hi),
{
    lemma_rmin_concat(s, lo, lo2, hi);
    lemma_rmin_concat(s, lo2, hi2, hi);
}

/// Sparse Table Min
pub struct SparseTableMin {
    data: Vec<Vec<i64>>,
    plog: Vec<usize>,
}

impl SparseTableMin {
    /// The array the table was built from: its first level.
    pub closed spec fn values(self) -> Seq<i64> {
        if self.data@.len() == 0 {
            Seq::empty()
        } else {
            self.data@[0]@
        }
    }

    /// Every level `i` stores at `j` the minimum of the window of length
    /// `2^i` starting at `j`, and `plog[d]` is the table's (lagging)
    /// base-2 logarithm of the query span `d`.
    pub closed spec fn wf(self) -> bool {
        let n = self.values().len() as int;
        &&& self.plog@.len() == n
        &&& (n == 0 ==> self.data@.len() == 0)
        &&& (n > 0 ==> self.plog@[0] == 0 && self.data@.len() >= 1)
        &&& (forall|d: int|
            1 <= d < n ==> p2(#[trigger] self.plog@[d] as nat) <= d < p2((self.plog@[d] + 1) as nat))
        &&& (forall|d: int| 0 <= d < n ==> (#[trigger] self.plog@[d]) < self.data@.len())
        &&& (forall|i: int| 0 <= i < self.data@.len() ==> (#[trigger] self.data@[i])@.len() == n)
        &&& (forall|i: int, j: int|
            #![trigger self.data@[i]@[j]]
            0 <= i < self.data@.len() && 0 <= j < n ==> self.data@[i]@[j] == rmin(
                self.values(),
                j,
                j + p2(i as nat),
            ))
    }

    /// Builds the table by doubling window lengths level by level.
    pub fn build(src: &Vec<i64>) -> (table: Self)
        requires
            src@.len() <= 0x100_0000,
        ensures
            table.wf(),
            table.values() == src@,
    {
        let n = src.len();
        let mut k: usize = 0;
        let mut pw: usize = 1;
        while pw <= n
            invariant
                pw == p2(k as nat),
                k < pw,
                pw <= 2 * n + 1,
                k == 0 || p2((k - 1) as nat) <= n,
                n <= 0x100_0000,
            decreases 2 * n - pw,
        {
            proof {
                lemma_p2_ge(k as nat);
            }
            k += 1;
            pw = pw * 2;
        }
        let mut data: Vec<Vec<i64>> = Vec::new();
        if n == 0 {
            let table = SparseTableMin { data, plog: Vec::new() };
            proof {
                assert(table.values() =~= src@);
            }
            return table;
        }
        let mut row0: Vec<i64> = Vec::new();
        let mut j: usize = 0;
        while j < n
            invariant
                j <= n,
                n == src@.len(),
                row0@.len() == j,
                forall|t: int| 0 <= t < j ==> row0@[t] == src@[t],
            decreases n - j,
        {
            row0.push(src[j]);
            j += 1;
        }
        proof {
            assert(row0@ =~= src@);
            assert forall|t: int| 0 <= t < n implies row0@[t] == rmin(src@, t, t + p2(0)) by {
                assert(rmin(src@, t + 1, t + 1) == i64::MAX);
            }
        }
        data.push(row0);
        let mut plog: Vec<usize> = Vec::new();
        plog.push(0);
        let mut d: usize = 1;
        while d < n
            invariant
                1 <= d <= n,
                plog@.len() == d,
                n <= 0x100_0000,
                plog@[0] == 0,
                forall|t: int|
                    1 <= t < d ==> p2(#[trigger] plog@[t] as nat) <= t < p2((plog@[t] + 1) as nat),
                forall|t: int| 0 <= t < d ==> p2(#[trigger] plog@[t] as nat) <= t + 1,
            decreases n - d,
        {
            let prev = plog[d - 1];
            proof {
                lemma_p2_ge(prev as nat);
                assert(p2(prev as nat) <= d as int);
            }
            let mut pw2: usize = 1;
            let mut e: usize = 0;
            while e < prev
                invariant
                    pw2 == p2(e as nat),
                    e <= prev,
                    prev < 2 * n,
                    n <= 0x100_0000,
                    p2(prev as nat) <= n + 1,
                decreases prev - e,
            {
                proof {
                    assert(p2((e + 1) as nat) == 2 * p2(e as nat));
                    lemma_p2_mono((e + 1) as nat, prev as nat);
                }
                e += 1;
                pw2 = pw2 * 2;
            }
            proof {
                assert(pw2 == p2(prev as nat));
                assert(p2((prev + 1) as nat) == 2 * pw2);
                assert(p2((prev + 2) as nat) == 4 * pw2);
            }
            let nextp = if pw2 * 2 < d + 1 {
                prev + 1
            } else {
                prev
            };
            proof {
                lemma_p2_pos(prev as nat);
                if d == 1 {
                    assert(prev == 0 && pw2 == 1);
                    assert(nextp == 0);
                    assert(p2(0) == 1 && p2(1) == 2);
                } else {
                    assert(p2(prev as nat) <= d - 1 < p2((prev + 1) as nat));
                }
                assert(p2(nextp as nat) <= d as int);
                assert((d as int) < p2((nextp + 1) as nat));
            }
            plog.push(nextp);
            d += 1;
        }
        proof {
            assert(p2(k as nat) > n);
            assert(k >= 1);
            assert(p2((k - 1) as nat) <= n);
        }
        let mut i: usize = 1;
        let mut pwi: usize = 1;
        while i < k
            invariant
                1 <= i <= k,
                pwi == p2((i - 1) as nat),
                pwi <= n,
                k >= 1,
                p2((k - 1) as nat) <= n,
                p2(k as nat) <= 2 * n + 1,
                n <= 0x100_0000,
                n >= 1,
                n == src@.len(),
                data@.len() == i,
                forall|t: int| 0 <= t < i ==> (#[trigger] data@[t])@.len() == n,
                forall|t: int, j2: int|
                    #![trigger data@[t]@[j2]]
                    0 <= t < i && 0 <= j2 < n ==> data@[t]@[j2] == rmin(
                        src@,
                        j2,
                        j2 + p2(t as nat),
                    ),
            decreases k - i,
        {
            proof {
                assert(p2(i as nat) == 2 * pwi);
                lemma_p2_mono(i as nat, k as nat);
            }
            let mut row: Vec<i64> = Vec::new();
            let mut j2: usize = 0;
            while j2 < n
                invariant
                    j2 <= n,
                    1 <= i < k,
                    n == src@.len(),
                    n >= 1,
                    n <= 0x100_0000,
                    pwi == p2((i - 1) as nat),
                    pwi <= n,
                    p2(i as nat) == 2 * pwi,
                    p2(i as nat) <= p2(k as nat) <= 2 * n + 1,
                    data@.len() == i,
                    forall|t: int| 0 <= t < i ==> (#[trigger] data@[t])@.len() == n,
                    forall|t: int, j3: int|
                        #![trigger data@[t]@[j3]]
                        0 <= t < i && 0 <= j3 < n ==> data@[t]@[j3] == rmin(
                            src@,
                            j3,
                            j3 + p2(t as nat),
                        ),
                    row@.len() == j2,
                    forall|j3: int| 0 <= j3 < j2 ==> row@[j3] == rmin(src@, j3, j3 + p2(i as nat)),
                decreases n - j2,
            {
                let v: i64;
                if j2 + pwi < n {
                    let x = min_i64(data[i - 1][j2], data[i - 1][j2 + pwi]);
                    v = x;
                    proof {
                        lemma_rmin_concat(src@, j2 as int, j2 + pwi, j2 + 2 * pwi);
                    }
                } else {
                    v = data[i - 1][j2];
                    proof {
                        lemma_rmin_concat(src@, j2 as int, j2 + pwi, j2 + 2 * pwi);
                        assert(rmin(src@, j2 + pwi, j2 + 2 * pwi) == i64::MAX);
                    }
                }
                row.push(v);
                j2 += 1;
            }
            data.push(row);
            proof {
                lemma_p2_mono(i as nat, (k - 1) as nat);
            }
            i += 1;
            pwi = pwi * 2;
        }
        let table = SparseTableMin { data, plog };
        proof {
            assert(table.values() =~= src@);
            assert forall|dd: int| 0 <= dd < n implies (#[trigger] table.plog@[dd])
                < table.data@.len() by {
                assert(p2(table.plog@[dd] as nat) <= dd + 1);
                assert(dd + 1 <= n < p2(k as nat));
                if table.plog@[dd] >= k {
                    lemma_p2_mono(k as nat, table.plog@[dd] as nat);
                }
                assert(table.plog@[dd] < k);
                assert(table.data@.len() == k || k == 0);
            }
        }
        table
    }

    /// Returns the minimum of the values between the two endpoints,
    /// in either order.
    pub fn query(&self, l: usize, r: usize) -> (res: i64)
        requires
            self.wf(),
            l < self.values().len(),
            r < self.values().len(),
        ensures
            res == rmin(
                self.values(),
                if l <= r {
                    l as int
                } else {
                    r as int
                },
                (if l <= r {
                    r as int
                } else {
                    l as int
                }) + 1,
            ),
    {
        let (a, b) = if l <= r {
            (l, r)
        } else {
            (r, l)
        };
        let d = b - a;
        let k = self.plog[d];
        let mut pw: usize = 1;
        let mut e: usize = 0;
        proof {
            if d >= 1 {
                assert(p2(k as nat) <= d);
            }
        }
        while e < k
            invariant
                pw == p2(e as nat),
                e <= k,
                self.wf(),
                k == self.plog@[(b - a) as int],
                a <= b < self.values().len(),
                d == b - a,
                d >= 1 ==> p2(k as nat) <= d,
                d == 0 ==> k == 0,
            decreases k - e,
        {
            proof {
                assert(p2((e + 1) as nat) == 2 * p2(e as nat));
                lemma_p2_mono((e + 1) as nat, k as nat);
            }
            e += 1;
            pw = pw * 2;
        }
        proof {
            assert(pw == p2(k as nat));
            if d >= 1 {
                assert(p2(k as nat) <= d < p2((k + 1) as nat));
                assert(p2((k + 1) as nat) == 2 * pw);
            } else {
                assert(pw == 1);
            }
            assert(pw <= d + 1);
            assert(2 * pw >= d + 1);
        }
        let x = self.data[k][a];
        let y = self.data[k][b - (pw - 1)];
        let res = min_i64(x, y);
        proof {
            let s = self.values();
            let lo = a as int;
            let hi = (b + 1) as int;
            let m = (b - (pw - 1)) as int;
            assert(x == rmin(s, lo, lo + pw));
            assert(y == rmin(s, m, m + pw));
            assert(m + pw == hi);
            lemma_rmin_concat(s, lo, m, hi);
            lemma_rmin_subset(s, lo, lo + pw, lo, m);
            lemma_rmin_subset(s, lo, hi, lo, lo + pw);
            lemma_rmin_subset(s, lo, hi, m, hi);
        }
        res
    }
}

/// The smaller of two values.
fn min_i64(a: i64, b: i64) -> (r: i64)
    ensures
        r == min2_i64(a, b),
{
    if a <= b {
        a
    } else {
        b
    }
}

pub open spec fn max2_i64(a: i64, b: i64) -> i64 {
    if a >= b {
        a
    } else {
        b
    }
}

/// The maximum of `s[lo..hi)`, the range clipped to the array; the least
/// value on an empty range.
pub open spec fn rmax(s: Seq<i64>, lo: int, hi: int) -> i64
    decreases hi - lo,
{
    if hi <= lo || lo < 0 || lo >= s.len() {
        i64::MIN
    } else {
        max2_i64(s[lo], rmax(s, lo + 1, hi))
    }
}

proof fn lemma_rmax_concat(s: Seq<i64>, lo: int, mid: int, hi: int)
    requires
        0 <= lo <= mid <= hi,
    ensures
        rmax(s, lo, hi) == max2_i64(rmax(s, lo, mid), rmax(s, mid, hi)),
    decreases mid - lo,
{
    if lo < mid {
        if lo >= s.len() {
            assert(rmax(s, lo, hi) == i64::MIN);
            assert(rmax(s, lo, mid) == i64::MIN);
            assert(rmax(s, mid, hi) == i64::MIN);
        } else {
            lemma_rmax_concat(s, lo + 1, mid, hi);
        }
    }
}

/// The maximum over a subrange is no larger than over the whole range.
proof fn lemma_rmax_subset(s: Seq<i64>, lo: int, hi: int, lo2: int, hi2: int)
    requires
        0 <= lo <= lo2 <= hi2 <= hi,
    ensures
        rmax(s, lo2, hi2) <= rmax(s, lo, hi),
{
    lemma_rmax_concat(s, lo, lo2, hi);
    lemma_rmax_concat(s, lo2, hi2, hi);
}

/// Sparse Table Max
pub struct SparseTableMax {
    data: Vec<Vec<i64>>,
    plog: Vec<usize>,
}

impl SparseTableMax {
    /// The array the table was built from: its first level.
    pub closed spec fn values(self) -> Seq<i64> {
        if self.data@.len() == 0 {
            Seq::empty()
        } else {
            self.data@[0]@
        }
    }

    /// Every level `i` stores at `j` the maximum of the window of length
    /// `2^i` starting at `j`, and `plog[d]` is the table's (lagging)
    /// base-2 logarithm of the query span `d`.
    pub closed spec fn wf(self) -> bool {
        let n = self.values().len() as int;
        &&& self.plog@.len() == n
        &&& (n == 0 ==> self.data@.len() == 0)
        &&& (n > 0 ==> self.plog@[0] == 0 && self.data@.len() >= 1)
        &&& (forall|d: int|
            1 <= d < n ==> p2(#[trigger] self.plog@[d] as nat) <= d < p2((self.plog@[d] + 1) as nat))
        &&& (forall|d: int| 0 <= d < n ==> (#[trigger] self.plog@[d]) < self.data@.len())
        &&& (forall|i: int| 0 <= i < self.data@.len() ==> (#[trigger] self.data@[i])@.len() == n)
        &&& (forall|i: int, j: int|
            #![trigger self.data@[i]@[j]]
            0 <= i < self.data@.len() && 0 <= j < n ==> self.data@[i]@[j] == rmax(
                self.values(),
                j,
                j + p2(i as nat),
            ))
    }

    /// Builds the table by doubling window lengths level by level.
    pub fn build(src: &Vec<i64>) -> (table: Self)
        requires
            src@.len() <= 0x100_0000,
        ensures
            table.wf(),
            table.values() == src@,
    {
        let n = src.len();
        let mut k: usize = 0;
        let mut pw: usize = 1;
        while pw <= n
            invariant
                pw == p2(k as nat),
                k < pw,
                pw <= 2 * n + 1,
                k == 0 || p2((k - 1) as nat) <= n,
                n <= 0x100_0000,
            decreases 2 * n - pw,
        {
            proof {
                lemma_p2_ge(k as nat);
            }
            k += 1;
            pw = pw * 2;
        }
        let mut data: Vec<Vec<i64>> = Vec::new();
        if n == 0 {
            let table = SparseTableMax { data, plog: Vec::new() };
            proof {
                assert(table.values() =~= src@);
            }
            return table;
        }
        let mut row0: Vec<i64> = Vec::new();
        let mut j: usize = 0;
        while j < n
            invariant
                j <= n,
                n == src@.len(),
                row0@.len() == j,
                forall|t: int| 0 <= t < j ==> row0@[t] == src@[t],
            decreases n - j,
        {
            row0.push(src[j]);
            j += 1;
        }
        proof {
            assert(row0@ =~= src@);
            assert forall|t: int| 0 <= t < n implies row0@[t] == rmax(src@, t, t + p2(0)) by {
                assert(rmax(src@, t + 1, t + 1) == i64::MIN);
            }
        }
        data.push(row0);
        let mut plog: Vec<usize> = Vec::new();
        plog.push(0);
        let mut d: usize = 1;
        while d < n
            invariant
                1 <= d <= n,
                plog@.len() == d,
                n <= 0x100_0000,
                plog@[0] == 0,
                forall|t: int|
                    1 <= t < d ==> p2(#[trigger] plog@[t] as nat) <= t < p2((plog@[t] + 1) as nat),
                forall|t: int| 0 <= t < d ==> p2(#[trigger] plog@[t] as nat) <= t + 1,
            decreases n - d,
        {
            let prev = plog[d - 1];
            proof {
                lemma_p2_ge(prev as nat);
                assert(p2(prev as nat) <= d as int);
            }
            let mut pw2: usize = 1;
            let mut e: usize = 0;
            while e < prev
                invariant
                    pw2 == p2(e as nat),
                    e <= prev,
                    prev < 2 * n,
                    n <= 0x100_0000,
                    p2(prev as nat) <= n + 1,
                decreases prev - e,
            {
                proof {
                    assert(p2((e + 1) as nat) == 2 * p2(e as nat));
                    lemma_p2_mono((e + 1) as nat, prev as nat);
                }
                e += 1;
                pw2 = pw2 * 2;
            }
            proof {
                assert(pw2 == p2(prev as nat));
                assert(p2((prev + 1) as nat) == 2 * pw2);
                assert(p2((prev + 2) as nat) == 4 * pw2);
            }
            let nextp = if pw2 * 2 < d + 1 {
                prev + 1
            } else {
                prev
            };
            proof {
                lemma_p2_pos(prev as nat);
                if d == 1 {
                    assert(prev == 0 && pw2 == 1);
                    assert(nextp == 0);
                    assert(p2(0) == 1 && p2(1) == 2);
                } else {
                    assert(p2(prev as nat) <= d - 1 < p2((prev + 1) as nat));
                }
                assert(p2(nextp as nat) <= d as int);
                assert((d as int) < p2((nextp + 1) as nat));
            }
            plog.push(nextp);
            d += 1;
        }
        proof {
            assert(p2(k as nat) > n);
            assert(k >= 1);
            assert(p2((k - 1) as nat) <= n);
        }
        let mut i: usize = 1;
        let mut pwi: usize = 1;
        while i < k
            invariant
                1 <= i <= k,
                pwi == p2((i - 1) as nat),
                pwi <= n,
                k >= 1,
                p2((k - 1) as nat) <= n,
                p2(k as nat) <= 2 * n + 1,
                n <= 0x100_0000,
                n >= 1,
                n == src@.len(),
                data@.len() == i,
                forall|t: int| 0 <= t < i ==> (#[trigger] data@[t])@.len() == n,
                forall|t: int, j2: int|
                    #![trigger data@[t]@[j2]]
                    0 <= t < i && 0 <= j2 < n ==> data@[t]@[j2] == rmax(
                        src@,
                        j2,
                        j2 + p2(t as nat),
                    ),
            decreases k - i,
        {
            proof {
                assert(p2(i as nat) == 2 * pwi);
                lemma_p2_mono(i as nat, k as nat);
            }
            let mut row: Vec<i64> = Vec::new();
            let mut j2: usize = 0;
            while j2 < n
                invariant
                    j2 <= n,
                    1 <= i < k,
                    n == src@.len(),
                    n >= 1,
                    n <= 0x100_0000,
                    pwi == p2((i - 1) as nat),
                    pwi <= n,
                    p2(i as nat) == 2 * pwi,
                    p2(i as nat) <= p2(k as nat) <= 2 * n + 1,
                    data@.len() == i,
                    forall|t: int| 0 <= t < i ==> (#[trigger] data@[t])@.len() == n,
                    forall|t: int, j3: int|
                        #![trigger data@[t]@[j3]]
                        0 <= t < i && 0 <= j3 < n ==> data@[t]@[j3] == rmax(
                            src@,
                            j3,
                            j3 + p2(t as nat),
                        ),
                    row@.len() == j2,
                    forall|j3: int| 0 <= j3 < j2 ==> row@[j3] == rmax(src@, j3, j3 + p2(i as nat)),
                decreases n - j2,
            {
                let v: i64;
                if j2 + pwi < n {
                    let x = max_i64(data[i - 1][j2], data[i - 1][j2 + pwi]);
                    v = x;
                    proof {
                        lemma_rmax_concat(src@, j2 as int, j2 + pwi, j2 + 2 * pwi);
                    }
                } else {
                    v = data[i - 1][j2];
                    proof {
                        lemma_rmax_concat(src@, j2 as int, j2 + pwi, j2 + 2 * pwi);
                        assert(rmax(src@, j2 + pwi, j2 + 2 * pwi) == i64::MIN);
                    }
                }
                row.push(v);
                j2 += 1;
            }
            data.push(row);
            proof {
                lemma_p2_mono(i as nat, (k - 1) as nat);
            }
            i += 1;
            pwi = pwi * 2;
        }
        let table = SparseTableMax { data, plog };
        proof {
            assert(table.values() =~= src@);
            assert forall|dd: int| 0 <= dd < n implies (#[trigger] table.plog@[dd])
                < table.data@.len() by {
                assert(p2(table.plog@[dd] as nat) <= dd + 1);
                assert(dd + 1 <= n < p2(k as nat));
                if table.plog@[dd] >= k {
                    lemma_p2_mono(k as nat, table.plog@[dd] as nat);
                }
                assert(table.plog@[dd] < k);
                assert(table.data@.len() == k || k == 0);
            }
        }
        table
    }

    /// Returns the maximum of the values between the two endpoints,
    /// in either order.
    pub fn query(&self, l: usize, r: usize) -> (res: i64)
        requires
            self.wf(),
            l < self.values().len(),
            r < self.values().len(),
        ensures
            res == rmax(
                self.values(),
                if l <= r {
                    l as int
                } else {
                    r as int
                },
                (if l <= r {
                    r as int
                } else {
                    l as int
                }) + 1,
            ),
    {
        let (a, b) = if l <= r {
            (l, r)
        } else {
            (r, l)
        };
        let d = b - a;
        let k = self.plog[d];
        let mut pw: usize = 1;
        let mut e: usize = 0;
        proof {
            if d >= 1 {
                assert(p2(k as nat) <= d);
            }
        }
        while e < k
            invariant
                pw == p2(e as nat),
                e <= k,
                self.wf(),
                k == self.plog@[(b - a) as int],
                a <= b < self.values().len(),
                d == b - a,
                d >= 1 ==> p2(k as nat) <= d,
                d == 0 ==> k == 0,
            decreases k - e,
        {
            proof {
                assert(p2((e + 1) as nat) == 2 * p2(e as nat));
                lemma_p2_mono((e + 1) as nat, k as nat);
            }
            e += 1;
            pw = pw * 2;
        }
        proof {
            assert(pw == p2(k as nat));
            if d >= 1 {
                assert(p2(k as nat) <= d < p2((k + 1) as nat));
                assert(p2((k + 1) as nat) == 2 * pw);
            } else {
                assert(pw == 1);
            }
            assert(pw <= d + 1);
            assert(2 * pw >= d + 1);
        }
        let x = self.data[k][a];
        let y = self.data[k][b - (pw - 1)];
        let res = max_i64(x, y);
        proof {
            let s = self.values();
            let lo = a as int;
            let hi = (b + 1) as int;
            let m = (b - (pw - 1)) as int;
            assert(x == rmax(s, lo, lo + pw));
            assert(y == rmax(s, m, m + pw));
            assert(m + pw == hi);
            lemma_rmax_concat(s, lo, m, hi);
            lemma_rmax_subset(s, lo, lo + pw, lo, m);
            lemma_rmax_subset(s, lo, hi, lo, lo + pw);
            lemma_rmax_subset(s, lo, hi, m, hi);
        }
        res
    }
}

/// The larger of two values.
fn max_i64(a: i64, b: i64) -> (r: i64)
    ensures
        r == max2_i64(a, b),
{
    if a >= b {
        a
    } else {
        b
    }
}


} // verus!
