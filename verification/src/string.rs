use vstd::prelude::*;
use vstd::string::StrSliceExecFns;
use vstd::string::StringSliceAdditionalSpecFns;

verus! {

/// `s[0..k]` equals `s[n-k..n]`: the prefix of length `k` is a border of
/// `s[0..n]`.
pub open spec fn is_border(s: Seq<u8>, n: int, k: int) -> bool {
    &&& 0 <= k <= n <= s.len()
    &&& forall|t: int| 0 <= t < k ==> #[trigger] s[t] == s[n - k + t]
}

/// The pattern `p` occurs in `t` at start offset `x`.
pub open spec fn occurs_at(t: Seq<u8>, p: Seq<u8>, x: int) -> bool {
    &&& 0 <= x
    &&& x + p.len() <= t.len()
    &&& forall|u: int| 0 <= u < p.len() ==> t[x + u] == #[trigger] p[u]
}

/// The first `k` bytes of the pattern match the text bytes ending at `i`.
pub open spec fn tail_matches(t: Seq<u8>, i: int, p: Seq<u8>, k: int) -> bool {
    &&& 0 <= k <= i <= t.len()
    &&& k <= p.len()
    &&& forall|u: int| 0 <= u < k ==> t[i - k + u] == #[trigger] p[u]
}

/// A border of a border is a border.
proof fn lemma_border_trans(s: Seq<u8>, n: int, k: int, k2: int)
    requires
        is_border(s, n, k),
        is_border(s, k, k2),
    ensures
        is_border(s, n, k2),
{
    assert forall|t: int| 0 <= t < k2 implies #[trigger] s[t] == s[n - k2 + t] by {
        assert(s[t] == s[k - k2 + t]);
        assert(s[k - k2 + t] == s[n - k + (k - k2 + t)]);
    }
}

/// Of two borders of the same prefix, the shorter is a border of the longer.
proof fn lemma_border_of_border(s: Seq<u8>, n: int, b1: int, b2: int)
    requires
        is_border(s, n, b1),
        is_border(s, n, b2),
        b1 <= b2,
    ensures
        is_border(s, b2, b1),
{
    assert forall|t: int| 0 <= t < b1 implies #[trigger] s[t] == s[b2 - b1 + t] by {
        assert(s[t] == s[n - b1 + t]);
        assert(s[b2 - b1 + t] == s[n - b2 + (b2 - b1 + t)]);
    }
}

/// Of two pattern prefixes matching the text up to the same position, the
/// shorter is a border of the longer.
proof fn lemma_tail_tail_border(t: Seq<u8>, i: int, p: Seq<u8>, a: int, b: int)
    requires
        tail_matches(t, i, p, a),
        tail_matches(t, i, p, b),
        b <= a,
    ensures
        is_border(p, a, b),
{
    assert forall|u: int| 0 <= u < b implies #[trigger] p[u] == p[a - b + u] by {
        assert(t[i - b + u] == p[u]);
        assert(t[i - a + (a - b + u)] == p[a - b + u]);
    }
}

/// A shorter match that is a border of a longer match still matches the text.
proof fn lemma_tail_border(t: Seq<u8>, i: int, p: Seq<u8>, k: int, k2: int)
    requires
        tail_matches(t, i, p, k),
        is_border(p, k, k2),
    ensures
        tail_matches(t, i, p, k2),
{
    assert forall|u: int| 0 <= u < k2 implies t[i - k2 + u] == #[trigger] p[u] by {
        assert(p[u] == p[k - k2 + u]);
        assert(t[i - k + (k - k2 + u)] == p[k - k2 + u]);
    }
}

/// The failure table of the Knuth-Morris-Pratt algorithm: `pi[i]` is a
/// border length of the prefix `src[0..i+1]`.
pub fn prefix_function(src: &str) -> (pi: Vec<usize>)
    ensures
        pi@.len() == src.spec_bytes().len(),
        forall|i: int|
            0 <= i < pi@.len() ==> #[trigger] pi@[i] <= i && is_border(
                src.spec_bytes(),
                i + 1,
                pi@[i] as int,
            ),
        forall|i: int, b: int|
            0 <= i < pi@.len() && pi@[i] < b <= i ==> !#[trigger] is_border(
                src.spec_bytes(),
                i + 1,
                b,
            ),
{
    let arr = src.as_bytes_vec();
    let n = arr.len();
    let mut pi: Vec<usize> = Vec::new();
    let mut z: usize = 0;
    while z < n
        invariant
            pi@.len() == z,
            z <= n,
            n == arr@.len(),
            forall|i: int| 0 <= i < z ==> pi@[i] == 0,
        decreases n - z,
    {
        pi.push(0);
        z += 1;
    }
    if n == 0 {
        return pi;
    }
    let mut i: usize = 1;
    while i < n
        invariant
            1 <= i <= n,
            pi@.len() == n,
            n == arr@.len(),
            forall|t: int|
                0 <= t < i ==> #[trigger] pi@[t] <= t && is_border(arr@, t + 1, pi@[t] as int),
            forall|t: int, b: int|
                0 <= t < i && pi@[t] < b <= t ==> !#[trigger] is_border(arr@, t + 1, b),
        decreases n - i,
    {
        let mut j = pi[i - 1];
        proof {
            assert(is_border(arr@, i as int, j as int));
            assert forall|b: int|
                1 <= b <= i && #[trigger] is_border(arr@, i + 1, b) implies b <= j + 1 by {
                assert(is_border(arr@, i as int, b - 1));
            }
        }
        while j > 0 && arr[i] != arr[j]
            invariant
                0 < i < n,
                j < i,
                pi@.len() == n,
                n == arr@.len(),
                is_border(arr@, i as int, j as int),
                forall|t: int|
                    0 <= t < i ==> #[trigger] pi@[t] <= t && is_border(arr@, t + 1, pi@[t] as int),
                forall|t: int, b: int|
                    0 <= t < i && pi@[t] < b <= t ==> !#[trigger] is_border(arr@, t + 1, b),
                forall|b: int| 1 <= b <= i && #[trigger] is_border(arr@, i + 1, b) ==> b <= j + 1,
            decreases j,
        {
            let j2 = pi[j - 1];
            proof {
                lemma_border_trans(arr@, i as int, j as int, j2 as int);
                assert forall|b: int|
                    1 <= b <= i && #[trigger] is_border(arr@, i + 1, b) implies b <= j2 + 1 by {
                    if b == j + 1 {
                        assert(arr@[(j + 1) - 1] == arr@[i + 1 - (j + 1) + ((j + 1) - 1)]);
                        assert(false);
                    }
                    assert(b <= j);
                    if b >= 1 {
                        assert(is_border(arr@, i as int, b - 1));
                        if b - 1 > 0 || true {
                            lemma_border_of_border(arr@, i as int, b - 1, j as int);
                        }
                    }
                }
            }
            j = j2;
        }
        if arr[i] == arr[j] {
            proof {
                assert(is_border(arr@, i + 1 as int, j + 1 as int));
            }
            j += 1;
            proof {
                assert forall|b: int| j < b <= i implies !#[trigger] is_border(arr@, i + 1, b) by {
                    if is_border(arr@, i + 1, b) {
                        assert(b <= j);
                    }
                }
            }
        } else {
            proof {
                assert(j == 0);
                assert forall|b: int| j < b <= i implies !#[trigger] is_border(arr@, i + 1, b) by {
                    if is_border(arr@, i + 1, b) {
                        assert(b <= 1);
                        assert(b == 1);
                        assert(arr@[0] == arr@[i + 1 - 1 + 0]);
                        assert(false);
                    }
                }
            }
        }
        pi[i] = j;
        i += 1;
    }
    pi
}

/// Knuth-Morris-Pratt string-searching algorithm (or KMP algorithm).
/// Return all occurrences of a substring: the strictly ascending list of
/// exactly the offsets at which `p` matches in `t`.
pub fn kmp(t: &str, p: &str) -> (res: Vec<usize>)
    requires
        p.spec_bytes().len() >= 1,
    ensures
        forall|k: int|
            0 <= k < res@.len() ==> occurs_at(t.spec_bytes(), p.spec_bytes(), #[trigger] res@[k] as int),
        forall|k1: int, k2: int| 0 <= k1 < k2 < res@.len() ==> res@[k1] < res@[k2],
        forall|x: int| #[trigger] occurs_at(t.spec_bytes(), p.spec_bytes(), x) ==> seq_contains_val(res@, x),
{
    let mut res: Vec<usize> = Vec::new();
    let pr = prefix_function(p);
    let mut idx: usize = 0;
    let pattern = p.as_bytes_vec();
    let text = t.as_bytes_vec();
    let m = pattern.len();
    let mut i: usize = 0;
    while i < text.len()
        invariant
            pattern@ == p.spec_bytes(),
            text@ == t.spec_bytes(),
            m == pattern@.len(),
            1 <= m,
            pr@.len() == m,
            forall|q: int|
                0 <= q < m ==> #[trigger] pr@[q] <= q && is_border(pattern@, q + 1, pr@[q] as int),
            forall|q: int, b: int|
                0 <= q < m && pr@[q] < b <= q ==> !#[trigger] is_border(pattern@, q + 1, b),
            i <= text@.len(),
            idx < m,
            tail_matches(text@, i as int, pattern@, idx as int),
            forall|k: int|
                idx < k && #[trigger] tail_matches(text@, i as int, pattern@, k) ==> k == m,
            forall|k: int|
                0 <= k < res@.len() ==> occurs_at(text@, pattern@, #[trigger] res@[k] as int),
            forall|k: int| 0 <= k < res@.len() ==> res@[k] + m <= i,
            forall|k1: int, k2: int| 0 <= k1 < k2 < res@.len() ==> res@[k1] < res@[k2],
            forall|x: int|
                0 <= x && x + m <= i && #[trigger] occurs_at(text@, pattern@, x)
                    ==> seq_contains_val(res@, x),
        decreases text@.len() - i,
    {
        let ghost res0 = res@;
        let value = text[i];
        proof {
            assert forall|k: int|
                #[trigger] tail_matches(text@, i + 1, pattern@, k) implies k <= idx + 1 by {
                if k >= 1 {
                    assert(tail_matches(text@, i as int, pattern@, k - 1)) by {
                        assert(forall|u: int|
                            0 <= u < k - 1 ==> text@[i - (k - 1) + u] == #[trigger] pattern@[u]);
                    }
                    if k - 1 > idx {
                        assert(k - 1 == m);
                    }
                }
            }
        }
        while idx > 0 && pattern[idx] != value
            invariant
                pattern@ == p.spec_bytes(),
                text@ == t.spec_bytes(),
                m == pattern@.len(),
                pr@.len() == m,
                forall|q: int|
                    0 <= q < m ==> #[trigger] pr@[q] <= q && is_border(
                        pattern@,
                        q + 1,
                        pr@[q] as int,
                    ),
                forall|q: int, b: int|
                    0 <= q < m && pr@[q] < b <= q ==> !#[trigger] is_border(pattern@, q + 1, b),
                i < text@.len(),
                idx < m,
                value == text@[i as int],
                tail_matches(text@, i as int, pattern@, idx as int),
                forall|k: int|
                    #[trigger] tail_matches(text@, i + 1, pattern@, k) ==> k <= idx + 1,
            decreases idx,
        {
            let idx2 = pr[idx - 1];
            proof {
                lemma_tail_border(text@, i as int, pattern@, idx as int, idx2 as int);
                assert forall|k: int|
                    #[trigger] tail_matches(text@, i + 1, pattern@, k) implies k <= idx2 + 1 by {
                    if k == idx + 1 {
                        assert(text@[i + 1 - k + (k - 1)] == pattern@[k - 1]);
                        assert(false);
                    }
                    if 1 <= k {
                        assert(tail_matches(text@, i as int, pattern@, k - 1)) by {
                            assert(forall|u: int|
                                0 <= u < k - 1 ==> text@[i - (k - 1) + u]
                                    == #[trigger] pattern@[u]);
                        }
                        lemma_tail_tail_border(text@, i as int, pattern@, idx as int, k - 1);
                    }
                }
            }
            idx = idx2;
        }
        if pattern[idx] == value {
            proof {
                assert(tail_matches(text@, i + 1 as int, pattern@, idx + 1 as int));
            }
            idx += 1;
        } else {
            proof {
                assert(idx == 0);
                assert(tail_matches(text@, i + 1 as int, pattern@, 0));
                assert forall|k: int|
                    #[trigger] tail_matches(text@, i + 1, pattern@, k) implies k <= 0 by {
                    if k >= 1 {
                        assert(k <= 1);
                        assert(text@[i + 1 - 1 + 0] == pattern@[0]);
                        assert(false);
                    }
                }
            }
        }
        i += 1;
        proof {
            assert(tail_matches(text@, i as int, pattern@, idx as int));
            assert(forall|k: int|
                idx < k ==> !#[trigger] tail_matches(text@, i as int, pattern@, k));
        }
        if idx == m {
            proof {
                assert(occurs_at(text@, pattern@, i - m as int));
            }
            res.push(i - m);
            let idx2 = pr[idx - 1];
            proof {
                lemma_tail_border(text@, i as int, pattern@, idx as int, idx2 as int);
                assert forall|k: int|
                    idx2 < k && #[trigger] tail_matches(text@, i as int, pattern@, k) implies k
                    == m by {
                    if k < m {
                        lemma_tail_tail_border(text@, i as int, pattern@, m as int, k);
                    }
                }
            }
            idx = idx2;
        }
        proof {
            assert forall|x: int|
                0 <= x && x + m <= i && #[trigger] occurs_at(text@, pattern@, x)
                    implies seq_contains_val(res@, x) by {
                if x + m == i {
                    assert(tail_matches(text@, i as int, pattern@, m as int)) by {
                        assert(forall|u: int|
                            0 <= u < m ==> text@[i - m + u] == #[trigger] pattern@[u]);
                    }
                    assert(res@[res@.len() - 1] == x);
                } else {
                    assert(seq_contains_val(res0, x));
                    let w = choose|w: int| 0 <= w < res0.len() && res0[w] == x;
                    assert(res@[w] == x);
                }
            }
        }
    }
    res
}

/// Knuth-Morris-Pratt string-searching algorithm (or KMP algorithm).
/// Return first occurrence of a substring, or nothing when the pattern does
/// not occur.
pub fn kmp_first(t: &str, p: &str) -> (res: Option<usize>)
    requires
        p.spec_bytes().len() >= 1,
    ensures
        res matches Some(x) ==> occurs_at(t.spec_bytes(), p.spec_bytes(), x as int) && (forall|
            y: int,
        |
            0 <= y < x ==> !#[trigger] occurs_at(t.spec_bytes(), p.spec_bytes(), y)),
        res is None ==> forall|x: int| !#[trigger] occurs_at(t.spec_bytes(), p.spec_bytes(), x),
{
    let pr = prefix_function(p);
    let mut idx: usize = 0;
    let pattern = p.as_bytes_vec();
    let text = t.as_bytes_vec();
    let m = pattern.len();
    let mut i: usize = 0;
    while i < text.len()
        invariant
            pattern@ == p.spec_bytes(),
            text@ == t.spec_bytes(),
            m == pattern@.len(),
            1 <= m,
            pr@.len() == m,
            forall|q: int|
                0 <= q < m ==> #[trigger] pr@[q] <= q && is_border(pattern@, q + 1, pr@[q] as int),
            forall|q: int, b: int|
                0 <= q < m && pr@[q] < b <= q ==> !#[trigger] is_border(pattern@, q + 1, b),
            i <= text@.len(),
            idx < m,
            tail_matches(text@, i as int, pattern@, idx as int),
            forall|k: int|
                idx < k && #[trigger] tail_matches(text@, i as int, pattern@, k) ==> k == m,
            forall|x: int|
                0 <= x && x + m <= i ==> !#[trigger] occurs_at(text@, pattern@, x),
        decreases text@.len() - i,
    {
        let value = text[i];
        proof {
            assert forall|k: int|
                #[trigger] tail_matches(text@, i + 1, pattern@, k) implies k <= idx + 1 by {
                if k >= 1 {
                    assert(tail_matches(text@, i as int, pattern@, k - 1)) by {
                        assert(forall|u: int|
                            0 <= u < k - 1 ==> text@[i - (k - 1) + u] == #[trigger] pattern@[u]);
                    }
                    if k - 1 > idx {
                        assert(k - 1 == m);
                    }
                }
            }
        }
        while idx > 0 && pattern[idx] != value
            invariant
                pattern@ == p.spec_bytes(),
                text@ == t.spec_bytes(),
                m == pattern@.len(),
                pr@.len() == m,
                forall|q: int|
                    0 <= q < m ==> #[trigger] pr@[q] <= q && is_border(
                        pattern@,
                        q + 1,
                        pr@[q] as int,
                    ),
                forall|q: int, b: int|
                    0 <= q < m && pr@[q] < b <= q ==> !#[trigger] is_border(pattern@, q + 1, b),
                i < text@.len(),
                idx < m,
                value == text@[i as int],
                tail_matches(text@, i as int, pattern@, idx as int),
                forall|k: int|
                    #[trigger] tail_matches(text@, i + 1, pattern@, k) ==> k <= idx + 1,
            decreases idx,
        {
            let idx2 = pr[idx - 1];
            proof {
                lemma_tail_border(text@, i as int, pattern@, idx as int, idx2 as int);
                assert forall|k: int|
                    #[trigger] tail_matches(text@, i + 1, pattern@, k) implies k <= idx2 + 1 by {
                    if k == idx + 1 {
                        assert(text@[i + 1 - k + (k - 1)] == pattern@[k - 1]);
                        assert(false);
                    }
                    if 1 <= k {
                        assert(tail_matches(text@, i as int, pattern@, k - 1)) by {
                            assert(forall|u: int|
                                0 <= u < k - 1 ==> text@[i - (k - 1) + u]
                                    == #[trigger] pattern@[u]);
                        }
                        lemma_tail_tail_border(text@, i as int, pattern@, idx as int, k - 1);
                    }
                }
            }
            idx = idx2;
        }
        if pattern[idx] == value {
            proof {
                assert(tail_matches(text@, i + 1 as int, pattern@, idx + 1 as int));
            }
            idx += 1;
        } else {
            proof {
                assert(idx == 0);
                assert(tail_matches(text@, i + 1 as int, pattern@, 0));
                assert forall|k: int|
                    #[trigger] tail_matches(text@, i + 1, pattern@, k) implies k <= 0 by {
                    if k >= 1 {
                        assert(k <= 1);
                        assert(text@[i + 1 - 1 + 0] == pattern@[0]);
                        assert(false);
                    }
                }
            }
        }
        i += 1;
        proof {
            assert(forall|k: int|
                idx < k ==> !#[trigger] tail_matches(text@, i as int, pattern@, k));
        }
        if idx == m {
            proof {
                assert(occurs_at(text@, pattern@, i - m as int));
            }
            return Some(i - m);
        }
        proof {
            assert forall|x: int|
                0 <= x && x + m <= i implies !#[trigger] occurs_at(text@, pattern@, x) by {
                if x + m == i && occurs_at(text@, pattern@, x) {
                    assert(tail_matches(text@, i as int, pattern@, m as int)) by {
                        assert(forall|u: int|
                            0 <= u < m ==> text@[i - m + u] == #[trigger] pattern@[u]);
                    }
                }
            }
        }
    }
    proof {
        assert forall|x: int| !#[trigger] occurs_at(text@, pattern@, x) by {
            if occurs_at(text@, pattern@, x) {
                assert(x + m <= i);
            }
        }
    }
    None
}

/// `z` is the exact Z-value at offset `i`: the longest common prefix of `s`
/// and the suffix `s[i..]`.
pub open spec fn z_ok(s: Seq<u8>, i: int, z: int) -> bool {
    &&& 0 <= z <= s.len() - i
    &&& forall|u: int| 0 <= u < z ==> #[trigger] s[u] == s[i + u]
    &&& (i + z == s.len() || s[z] != s[i + z])
}

/// The Z-function of a string: `z[i]` is the length of the longest common
/// prefix of the string and its suffix starting at `i` (and `z[0]` is zero
/// by convention).
pub fn z_function(src: &str) -> (z: Vec<usize>)
    ensures
        z@.len() == src.spec_bytes().len(),
        src.spec_bytes().len() > 0 ==> z@[0] == 0,
        forall|i: int| 1 <= i < z@.len() ==> z_ok(src.spec_bytes(), i, #[trigger] z@[i] as int),
{
    let arr = src.as_bytes_vec();
    let n = arr.len();
    let mut z: Vec<usize> = Vec::new();
    let mut w: usize = 0;
    while w < n
        invariant
            z@.len() == w,
            w <= n,
            forall|i: int| 0 <= i < w ==> z@[i] == 0,
        decreases n - w,
    {
        z.push(0);
        w += 1;
    }
    if n == 0 {
        return z;
    }
    let mut l: usize = 0;
    let mut r: usize = 0;
    let mut i: usize = 1;
    while i < n
        invariant
            1 <= i <= n,
            n == arr@.len(),
            arr@ == src.spec_bytes(),
            z@.len() == n,
            z@[0] == 0,
            l < i,
            l == 0 ==> r == 0,
            l <= r ==> r < n && (forall|u: int| 0 <= u <= r - l ==> #[trigger] arr@[u] == arr@[l + u]),
            forall|t: int| 1 <= t < i ==> z_ok(arr@, t, #[trigger] z@[t] as int),
        decreases n - i,
    {
        let mut zi: usize = 0;
        if i <= r {
            let cap = r - i + 1;
            let prev = z[i - l];
            zi = if cap < prev {
                cap
            } else {
                prev
            };
            proof {
                assert(l >= 1);
                assert(z_ok(arr@, (i - l) as int, prev as int));
                assert forall|u: int| 0 <= u < zi implies #[trigger] arr@[u] == arr@[i + u] by {
                    assert(arr@[u] == arr@[(i - l) + u]);
                    assert(arr@[(i - l) + u] == arr@[l + ((i - l) + u)]);
                }
            }
        }
        while i + zi < n && arr[zi] == arr[i + zi]
            invariant
                1 <= i < n,
                n == arr@.len(),
                zi <= n - i,
                forall|u: int| 0 <= u < zi ==> #[trigger] arr@[u] == arr@[i + u],
            decreases n - i - zi,
        {
            zi += 1;
        }
        z[i] = zi;
        proof {
            assert(z_ok(arr@, i as int, zi as int));
        }
        if i + zi > r + 1 {
            l = i;
            r = i + zi - 1;
        }
        i += 1;
    }
    z
}

/// `s` repeats with period `k` as far as it extends: every byte equals the
/// byte `k` places before it.
pub open spec fn has_period(s: Seq<u8>, k: int) -> bool {
    &&& 1 <= k <= s.len()
    &&& forall|i: int| k <= i < s.len() ==> #[trigger] s[i] == s[i - k]
}

/// Under a period of `k`, every byte equals the byte at its offset modulo `k`.
proof fn lemma_period_reduce(s: Seq<u8>, k: int, i: int)
    requires
        has_period(s, k),
        0 <= i < s.len(),
    ensures
        s[i] == s[i % k],
    decreases i,
{
    if i < k {
        vstd::arithmetic::div_mod::lemma_small_mod(i as nat, k as nat);
    } else {
        assert(s[i] == s[i - k]);
        lemma_period_reduce(s, k, i - k);
        assert((i - k) % k == i % k) by {
            vstd::arithmetic::div_mod::lemma_mod_sub_multiples_vanish(i, k);
        }
    }
}

/// Whether two equal-length byte ranges of `s` coincide.
fn bytes_ranges_equal(arr: &Vec<u8>, a: usize, b: usize, k: usize) -> (res: bool)
    requires
        a + k <= arr@.len(),
        b + k <= arr@.len(),
    ensures
        res == (forall|t: int| 0 <= t < k ==> arr@[a + t] == #[trigger] arr@[b + t]),
{
    let alen = arr.len();
    let mut t: usize = 0;
    while t < k
        invariant
            t <= k,
            alen == arr@.len(),
            a + k <= alen,
            b + k <= alen,
            forall|u: int| 0 <= u < t ==> arr@[a + u] == #[trigger] arr@[b + u],
        decreases k - t,
    {
        if arr[a + t] != arr[b + t] {
            return false;
        }
        t += 1;
    }
    true
}

/// Search for the minimum string period: the shortest prefix whose cyclic
/// repetition covers the whole string.
pub fn minimum_string_period(src: &str) -> (res: &str)
    requires
        src.is_ascii(),
    ensures
        res@ =~= src@.subrange(0, res@.len() as int),
        src@.len() > 0 ==> {
            &&& has_period(src.spec_bytes(), res.spec_bytes().len() as int)
            &&& forall|k: int| 1 <= k < res.spec_bytes().len() ==> !has_period(src.spec_bytes(), k)
        },
        src@.len() == 0 ==> res@ == src@,
{
    broadcast use vstd::string::is_ascii_spec_bytes;

    let z = z_function(src);
    let arr = src.as_bytes_vec();
    let n = arr.len();
    proof {
        assert(src.spec_bytes().len() == src@.len());
    }
    let mut idx: usize = 0;
    while idx < n
        invariant
            src.is_ascii(),
            idx <= n,
            n == src.spec_bytes().len(),
            n == src@.len(),
            arr@ == src.spec_bytes(),
            z@.len() == n,
            n > 0 ==> z@[0] == 0,
            forall|t: int| 1 <= t < n ==> z_ok(arr@, t, #[trigger] z@[t] as int),
            forall|k: int| 1 <= k < idx ==> !has_period(arr@, k),
        decreases n - idx,
    {
        let value = z[idx];
        if value + idx == n && idx > 0 && n % idx == 0 {
            proof {
                assert(z_ok(arr@, idx as int, value as int));
                assert forall|t: int| idx <= t < n implies #[trigger] arr@[t] == arr@[t
                    - idx] by {
                    assert(arr@[t - idx] == arr@[idx + (t - idx)]);
                }
                assert(has_period(arr@, idx as int));
            }
            let res = src.substring_ascii(0, idx);
            proof {
                assert(res.spec_bytes() =~= arr@.subrange(0, idx as int));
            }
            return res;
        } else if value + idx == n && idx > 0 {
            let k = n % idx;
            proof {
                assert(z_ok(arr@, idx as int, value as int));
                assert forall|t: int| idx <= t < n implies #[trigger] arr@[t] == arr@[t
                    - idx] by {
                    assert(arr@[t - idx] == arr@[idx + (t - idx)]);
                }
                assert(has_period(arr@, idx as int));
                assert(k < idx);
                assert forall|t: int| 0 <= t < k implies arr@[0 + t] == #[trigger] arr@[(n - k)
                    + t] by {
                    lemma_period_reduce(arr@, idx as int, n - k + t);
                    lemma_period_reduce(arr@, idx as int, t);
                    assert((n - k + t) % (idx as int) == t % (idx as int)) by {
                        vstd::arithmetic::div_mod::lemma_fundamental_div_mod(n as int, idx as int);
                        assert(n - k == (idx as int) * ((n as int) / (idx as int)));
                        vstd::arithmetic::div_mod::lemma_mod_multiples_vanish(
                            (n as int) / (idx as int),
                            t,
                            idx as int,
                        );
                    }
                    vstd::arithmetic::div_mod::lemma_small_mod(t as nat, idx as nat);
                }
            }
            let eq = bytes_ranges_equal(&arr, 0, n - k, k);
            proof {
                assert(eq);
            }
            if eq {
                let res = src.substring_ascii(0, idx);
                proof {
                    assert(res.spec_bytes() =~= arr@.subrange(0, idx as int));
                }
                return res;
            }
        } else {
            proof {
                if idx > 0 && has_period(arr@, idx as int) {
                    let zi = z@[idx as int] as int;
                    assert(z_ok(arr@, idx as int, zi));
                    assert forall|u: int| 0 <= u < n - idx implies #[trigger] arr@[u] == arr@[idx
                        + u] by {
                        assert(arr@[idx + u] == arr@[(idx + u) - idx]);
                    }
                    if zi < n - idx {
                        assert(arr@[zi] == arr@[idx + zi]);
                        assert(false);
                    }
                    assert(zi + idx == n);
                    assert(false);
                }
            }
        }
        idx += 1;
    }
    proof {
        if n > 0 {
            assert(has_period(arr@, n as int));
        }
        assert(src@.subrange(0, src@.len() as int) =~= src@);
    }
    src
}

/// Search for distinct substrings: every returned string slice is a
/// substring of the input.
/// Some entry of `res` is exactly the text slice `[st, en)` of `s`.
pub open spec fn covers<'a>(res: Seq<&'a str>, s: Seq<char>, st: int, en: int) -> bool {
    exists|q: int| 0 <= q < res.len() && (#[trigger] res[q])@ == s.subrange(st, en)
}

pub fn distinct_substrings(s: &str) -> (res: Vec<&str>)
    requires
        s.is_ascii(),
    ensures
        forall|q: int| 0 <= q < res@.len() ==> is_substring_of(s@, #[trigger] res@[q]@),
        forall|q1: int, q2: int| 0 <= q1 < q2 < res@.len() ==> res@[q1]@ != res@[q2]@,
        forall|st: int, en: int|
            0 <= st < en <= s@.len() ==> #[trigger] covers(res@, s@, st, en),
{
    broadcast use vstd::string::is_ascii_spec_bytes;

    let arr = s.as_bytes_vec();
    let n = arr.len();
    proof {
        assert(s.spec_bytes().len() == s@.len());
    }
    let mut seq: Vec<&str> = Vec::new();
    let ghost mut starts: Seq<int> = Seq::empty();
    let mut i: usize = n;
    while i > 0
        invariant
            i <= n,
            n == s@.len(),
            s.is_ascii(),
            starts.len() == seq@.len(),
            forall|q: int|
                0 <= q < seq@.len() ==> 0 <= #[trigger] starts[q] && starts[q] + seq@[q]@.len()
                    <= n && seq@[q]@ == s@.subrange(starts[q], starts[q] + seq@[q]@.len()),
            forall|q: int| 0 <= q < seq@.len() ==> #[trigger] starts[q] >= i && seq@[q]@.len() >= 1,
            forall|q1: int, q2: int| 0 <= q1 < q2 < seq@.len() ==> seq@[q1]@ != seq@[q2]@,
            forall|st: int, en: int| i <= st < en <= n ==> #[trigger] covers(seq@, s@, st, en),
        decreases i,
    {
        i -= 1;
        let suffix = s.substring_ascii(i, n);
        let pr = z_function(suffix);
        let m = n - i;
        proof {
            assert(suffix.spec_bytes().len() == suffix@.len());
        }
        let mut best: usize = 0;
        let ghost mut bi: int = 0;
        let mut q: usize = 0;
        while q < m
            invariant
                m == pr@.len(),
                m == suffix.spec_bytes().len(),
                m >= 1,
                q <= m,
                pr@.len() > 0 ==> pr@[0] == 0,
                forall|t: int| 1 <= t < m ==> z_ok(suffix.spec_bytes(), t, #[trigger] pr@[t] as int),
                best <= m - 1,
                forall|t: int| 0 <= t < q ==> (#[trigger] pr@[t]) <= best,
                best == 0 || (1 <= bi < m && pr@[bi] == best),
            decreases m - q,
        {
            proof {
                if q >= 1 {
                    assert(z_ok(suffix.spec_bytes(), q as int, pr@[q as int] as int));
                }
            }
            if pr[q] > best {
                best = pr[q];
                proof {
                    bi = q as int;
                }
            }
            q += 1;
        }
        let cnt = m - best;
        let ghost base = seq@.len() as int;
        let mut j: usize = 0;
        while j < cnt
            invariant
                j <= cnt,
                cnt <= m,
                cnt == m - best,
                m == n - i,
                i < n,
                n == s@.len(),
                s.is_ascii(),
                suffix.is_ascii(),
                suffix@ == s@.subrange(i as int, n as int),
                m == suffix@.len(),
                m == suffix.spec_bytes().len(),
                m == pr@.len(),
                forall|t: int| 1 <= t < m ==> z_ok(suffix.spec_bytes(), t, #[trigger] pr@[t] as int),
                forall|t: int| 0 <= t < m ==> (#[trigger] pr@[t]) <= best,
                starts.len() == seq@.len(),
                0 <= base <= seq@.len(),
                seq@.len() == base + j,
                forall|q: int|
                    0 <= q < seq@.len() ==> 0 <= #[trigger] starts[q] && starts[q]
                        + seq@[q]@.len() <= n && seq@[q]@ == s@.subrange(
                        starts[q],
                        starts[q] + seq@[q]@.len(),
                    ),
                forall|q: int|
                    0 <= q < base ==> #[trigger] starts[q] > i && seq@[q]@.len() >= 1,
                forall|q: int|
                    base <= q < seq@.len() ==> #[trigger] starts[q] == i && seq@[q]@.len() == n - i
                        - (q - base),
                forall|q1: int, q2: int| 0 <= q1 < q2 < seq@.len() ==> seq@[q1]@ != seq@[q2]@,
                best == 0 || (1 <= bi < m && pr@[bi] == best),
                forall|st: int, en: int|
                    i + 1 <= st < en <= n ==> #[trigger] covers(seq@, s@, st, en),
            decreases cnt - j,
        {
            let piece = s.substring_ascii(i, n - j);
            proof {
                assert(piece@ == s@.subrange(i as int, (n - j) as int));
                broadcast use vstd::string::is_ascii_spec_bytes;

                let sb = suffix.spec_bytes();
                assert forall|q: int| 0 <= q < seq@.len() implies seq@[q]@ != piece@ by {
                    let lq = seq@[q]@.len() as int;
                    let lp = piece@.len() as int;
                    assert(lp == n - j - i);
                    if q >= base {
                        assert(starts[q] == i && seq@[q]@.len() == n - i - (q - base));
                        assert(lq > lp);
                    } else if lq == lp {
                        assert(starts[q] > i);
                        let d = starts[q] - i;
                        assert(1 <= d);
                        assert(d + lp <= m);
                        if seq@[q]@ == piece@ {
                            let zd = pr@[d] as int;
                            assert(z_ok(sb, d, zd));
                            assert(zd <= best);
                            assert(lp == m - j >= m - cnt + 1 == best + 1);
                            assert(d + zd < m);
                            assert(sb[zd] != sb[d + zd]);
                            assert(sb[zd] == suffix@[zd] as u8);
                            assert(sb[d + zd] == suffix@[d + zd] as u8);
                            assert(suffix@[zd] == s@[i + zd]);
                            assert(suffix@[d + zd] == s@[i + d + zd]);
                            assert(seq@[q]@[zd] == s@[starts[q] + zd]);
                            assert(piece@[zd] == s@[i + zd]);
                            assert(s@[starts[q] + zd] == s@[i + zd]);
                            assert(false);
                        }
                    }
                }
            }
            let ghost starts0 = starts;
            let ghost seq0 = seq@;
            seq.push(piece);
            proof {
                starts = starts0.push(i as int);
                assert(seq@ == seq0.push(piece));
                assert(starts == starts0.push(i as int));
                assert(seq0.push(piece).len() == seq0.len() + 1);
                assert(starts0.push(i as int).len() == starts0.len() + 1);
                assert(seq0.len() == starts0.len());
                assert forall|q: int|
                    base <= q < seq@.len() implies #[trigger] starts[q] == i && seq@[q]@.len() == n
                    - i - (q - base) by {
                    if q == seq@.len() - 1 {
                        assert(seq@[q] == piece);
                        assert(starts[q] == i);
                    } else {
                        assert(0 <= q < seq0.len());
                        assert(seq@[q] == seq0[q]);
                        assert(starts[q] == starts0[q]);
                        assert(starts0[q] == i && seq0[q]@.len() == n - i - (q - base));
                    }
                }
                assert forall|st: int, en: int|
                    i + 1 <= st < en <= n implies #[trigger] covers(seq@, s@, st, en) by {
                    assert(covers(seq0, s@, st, en));
                    let q = choose|q: int|
                        0 <= q < seq0.len() && (#[trigger] seq0[q])@ == s@.subrange(st, en);
                    assert(seq@[q] == seq0[q]);
                    assert(0 <= q < seq@.len() && (seq@[q])@ == s@.subrange(st, en));
                }
            }
            j += 1;
        }
        proof {
            let sb = suffix.spec_bytes();
            assert forall|st: int, en: int|
                i <= st < en <= n implies #[trigger] covers(seq@, s@, st, en) by {
                if st > i {
                    assert(covers(seq@, s@, st, en));
                } else {
                    let ln = en - i;
                    if ln > best {
                        let q = base + (m - ln);
                        assert(base <= q < seq@.len());
                        assert(starts[q] == i);
                        assert(seq@[q]@.len() == n - i - (q - base));
                        assert(seq@[q]@.len() == ln);
                        assert((seq@[q])@ == s@.subrange(i as int, en));
                        assert(0 <= q < seq@.len() && (seq@[q])@ == s@.subrange(st, en));
                    } else {
                        assert(best >= 1);
                        assert(1 <= bi < m && pr@[bi] == best);
                        assert(z_ok(sb, bi, best as int));
                        assert(bi + best <= m);
                        assert(s@.subrange(i as int, en) =~= s@.subrange(i + bi, en + bi)) by {
                            assert forall|u: int|
                                0 <= u < ln implies s@.subrange(i as int, en)[u] == s@.subrange(
                                i + bi,
                                en + bi,
                            )[u] by {
                                assert(sb[u] == sb[bi + u]);
                                assert(sb[u] == suffix@[u] as u8);
                                assert(sb[bi + u] == suffix@[bi + u] as u8);
                                assert(suffix@[u] == s@[i + u]);
                                assert(suffix@[bi + u] == s@[i + bi + u]);
                                assert('\0' <= s@[i + u] <= '\u{7f}');
                                assert('\0' <= s@[i + bi + u] <= '\u{7f}');
                                assert(s@[i + u] == s@[i + bi + u]);
                            }
                        }
                        assert(i + 1 <= i + bi < en + bi <= n);
                        assert(covers(seq@, s@, i + bi, en + bi));
                        let q = choose|q: int|
                            0 <= q < seq@.len() && (#[trigger] seq@[q])@ == s@.subrange(
                                i + bi,
                                en + bi,
                            );
                        assert(0 <= q < seq@.len() && (seq@[q])@ == s@.subrange(st, en));
                    }
                }
            }
        }
    }
    proof {
        assert forall|q: int| 0 <= q < seq@.len() implies is_substring_of(
            s@,
            #[trigger] seq@[q]@,
        ) by {
            let a = starts[q];
            assert(seq@[q]@ == s@.subrange(a, a + seq@[q]@.len()));
            assert(0 <= a <= s@.len() - seq@[q]@.len());
        }
    }
    seq
}

/// `p` occurs as a contiguous run of characters inside `s`.
pub open spec fn is_substring_of(s: Seq<char>, p: Seq<char>) -> bool {
    exists|a: int| 0 <= a <= s.len() - p.len() && p == #[trigger] s.subrange(a, a + p.len())
}

/// The cost matrix entry of the Levenshtein recurrence used here: `i` counts
/// consumed bytes of `second`, `j` consumed bytes of `first`.
pub open spec fn lev_spec(first: Seq<u8>, second: Seq<u8>, i: int, j: int, dc: int, ic: int, rc: int) -> int
    decreases i + j,
{
    if i <= 0 {
        j * ic
    } else if j <= 0 {
        i * dc
    } else if second[i - 1] != first[j - 1] {
        min3(
            lev_spec(first, second, i - 1, j, dc, ic, rc) + dc,
            lev_spec(first, second, i - 1, j - 1, dc, ic, rc) + ic,
            lev_spec(first, second, i, j - 1, dc, ic, rc) + rc,
        )
    } else {
        lev_spec(first, second, i - 1, j - 1, dc, ic, rc)
    }
}

pub open spec fn min3(a: int, b: int, c: int) -> int {
    if a <= b && a <= c {
        a
    } else if b <= c {
        b
    } else {
        c
    }
}

/// The cost of any matrix entry is at most all-deletes plus all-inserts.
proof fn lemma_lev_bound(first: Seq<u8>, second: Seq<u8>, i: int, j: int, dc: int, ic: int, rc: int)
    requires
        0 <= i,
        0 <= j,
        0 <= dc,
        0 <= ic,
        0 <= rc,
    ensures
        0 <= lev_spec(first, second, i, j, dc, ic, rc) <= i * dc + j * ic,
    decreases i + j,
{
    if i <= 0 {
        assert(0 <= j * ic) by (nonlinear_arith)
            requires
                0 <= j,
                0 <= ic,
        ;
        assert(0 <= i * dc) by (nonlinear_arith)
            requires
                0 <= i,
                0 <= dc,
        ;
    } else if j <= 0 {
        assert(0 <= i * dc) by (nonlinear_arith)
            requires
                0 <= i,
                0 <= dc,
        ;
        assert(0 <= j * ic) by (nonlinear_arith)
            requires
                0 <= j,
                0 <= ic,
        ;
    } else {
        lemma_lev_bound(first, second, i - 1, j, dc, ic, rc);
        lemma_lev_bound(first, second, i - 1, j - 1, dc, ic, rc);
        lemma_lev_bound(first, second, i, j - 1, dc, ic, rc);
        assert((i - 1) * dc + dc == i * dc) by (nonlinear_arith);
        assert((j - 1) * ic + ic == j * ic) by (nonlinear_arith);
        assert((i - 1) * dc <= i * dc) by (nonlinear_arith)
            requires
                0 <= dc,
        ;
        assert((j - 1) * ic <= j * ic) by (nonlinear_arith)
            requires
                0 <= ic,
        ;
    }
}

/// Levenshtein distance (Metric of the difference between two symbol
/// sequences), with configurable delete, insert and replace costs, computed
/// by the dynamic programme mirrored in `lev_spec`.
pub fn levenshtein_distance(first: &str, second: &str, delete_cost: u32, insert_cost: u32, replace_cost: u32) -> (r: u32)
    requires
        second.spec_bytes().len() * delete_cost + first.spec_bytes().len() * insert_cost
            + replace_cost <= u32::MAX,
    ensures
        r == lev_spec(
            first.spec_bytes(),
            second.spec_bytes(),
            second.spec_bytes().len() as int,
            first.spec_bytes().len() as int,
            delete_cost as int,
            insert_cost as int,
            replace_cost as int,
        ),
{
    let a = first.as_bytes_vec();
    let b = second.as_bytes_vec();
    let la = a.len();
    let lb = b.len();
    let mut dist_old: Vec<u32> = Vec::new();
    dist_old.push(0);
    let mut j0: usize = 0;
    while j0 < la
        invariant
            j0 + 1 <= la + 1,
            la == a@.len(),
            lb == b@.len(),
            a@ == first.spec_bytes(),
            b@ == second.spec_bytes(),
            lb * delete_cost + la * insert_cost + replace_cost <= u32::MAX,
            dist_old@.len() == j0 + 1,
            forall|t: int|
                0 <= t < j0 + 1 ==> dist_old@[t] == lev_spec(
                    a@,
                    b@,
                    0,
                    t,
                    delete_cost as int,
                    insert_cost as int,
                    replace_cost as int,
                ),
        decreases la - j0,
    {
        let j = j0 + 1;
        proof {
            assert((j - 1) * insert_cost + insert_cost == j * insert_cost) by (nonlinear_arith);
            assert(j * insert_cost <= la * insert_cost) by (nonlinear_arith)
                requires
                    j <= la,
            ;
            assert(0 <= lb * delete_cost) by (nonlinear_arith);
        }
        let v = dist_old[j - 1] + insert_cost;
        dist_old.push(v);
        j0 = j;
    }
    let mut i0: usize = 0;
    while i0 < lb
        invariant
            i0 <= lb,
            la == a@.len(),
            lb == b@.len(),
            a@ == first.spec_bytes(),
            b@ == second.spec_bytes(),
            lb * delete_cost + la * insert_cost + replace_cost <= u32::MAX,
            dist_old@.len() == la + 1,
            forall|t: int|
                0 <= t < la + 1 ==> dist_old@[t] == lev_spec(
                    a@,
                    b@,
                    i0 as int,
                    t,
                    delete_cost as int,
                    insert_cost as int,
                    replace_cost as int,
                ),
        decreases lb - i0,
    {
        let i = i0 + 1;
        let mut dist: Vec<u32> = Vec::new();
        proof {
            assert((i - 1) * delete_cost + delete_cost == i * delete_cost) by (nonlinear_arith);
            assert(i * delete_cost <= lb * delete_cost) by (nonlinear_arith)
                requires
                    i <= lb,
            ;
            assert(0 <= la * insert_cost) by (nonlinear_arith);
            assert(lev_spec(
                a@,
                b@,
                i0 as int,
                0,
                delete_cost as int,
                insert_cost as int,
                replace_cost as int,
            ) == i0 * delete_cost) by (nonlinear_arith)
                requires
                    lev_spec(
                        a@,
                        b@,
                        i0 as int,
                        0,
                        delete_cost as int,
                        insert_cost as int,
                        replace_cost as int,
                    ) == if i0 as int <= 0 {
                        0 * (insert_cost as int)
                    } else {
                        i0 * (delete_cost as int)
                    },
            ;
            assert(lev_spec(
                a@,
                b@,
                i as int,
                0,
                delete_cost as int,
                insert_cost as int,
                replace_cost as int,
            ) == i * delete_cost);
        }
        let v0 = dist_old[0] + delete_cost;
        dist.push(v0);
        let mut j20: usize = 0;
        while j20 < la
            invariant
                1 <= i <= lb,
                j20 + 1 <= la + 1,
                i == i0 + 1,
                la == a@.len(),
                lb == b@.len(),
                a@ == first.spec_bytes(),
                b@ == second.spec_bytes(),
                lb * delete_cost + la * insert_cost + replace_cost <= u32::MAX,
                dist_old@.len() == la + 1,
                forall|t: int|
                    0 <= t < la + 1 ==> dist_old@[t] == lev_spec(
                        a@,
                        b@,
                        i - 1,
                        t,
                        delete_cost as int,
                        insert_cost as int,
                        replace_cost as int,
                    ),
                dist@.len() == j20 + 1,
                forall|t: int|
                    0 <= t < j20 + 1 ==> dist@[t] == lev_spec(
                        a@,
                        b@,
                        i as int,
                        t,
                        delete_cost as int,
                        insert_cost as int,
                        replace_cost as int,
                    ),
            decreases la - j20,
        {
            let j2 = j20 + 1;
            proof {
                let dc = delete_cost as int;
                let ic = insert_cost as int;
                let rc = replace_cost as int;
                lemma_lev_bound(a@, b@, i - 1, j2 as int, dc, ic, rc);
                lemma_lev_bound(a@, b@, i - 1, j2 - 1, dc, ic, rc);
                lemma_lev_bound(a@, b@, i as int, j2 - 1, dc, ic, rc);
                assert((i - 1) * dc + dc == i * dc) by (nonlinear_arith);
                assert((j2 - 1) * ic + ic == j2 * ic) by (nonlinear_arith);
                assert(i * dc + j2 * ic <= lb * dc + la * ic) by (nonlinear_arith)
                    requires
                        0 <= dc,
                        0 <= ic,
                        0 < i <= lb,
                        0 < j2 <= la,
                ;
            }
            let v: u32;
            if b[i - 1] != a[j2 - 1] {
                let c1 = dist_old[j2] + delete_cost;
                let c2 = dist_old[j2 - 1] + insert_cost;
                let c3 = dist[j2 - 1] + replace_cost;
                let m12 = if c1 <= c2 {
                    c1
                } else {
                    c2
                };
                v = if m12 <= c3 {
                    m12
                } else {
                    c3
                };
            } else {
                v = dist_old[j2 - 1];
            }
            dist.push(v);
            j20 = j2;
        }
        dist_old = dist;
        i0 = i;
    }
    dist_old[la]
}

/// The polynomial hash value: the sum of `s[i] * 31^i`, reduced modulo `2^64`.
pub open spec fn hash_poly(s: Seq<u8>, n: int) -> int
    decreases n,
{
    if n <= 0 {
        0
    } else {
        hash_poly(s, n - 1) + s[n - 1] * crate::math::pow_spec(31, (n - 1) as nat)
    }
}

/// String hashing function: a base-31 polynomial of the bytes, wrapping
/// modulo `2^64`.
pub fn hash(s: &str) -> (r: u64)
    ensures
        r == hash_poly(s.spec_bytes(), s.spec_bytes().len() as int) % 0x1_0000_0000_0000_0000,
{
    let arr = s.as_bytes_vec();
    let n = arr.len();
    let ghost m: int = 0x1_0000_0000_0000_0000;
    let mut k: u64 = 1;
    let mut res: u64 = 0;
    let mut i: usize = 0;
    while i < n
        invariant
            i <= n,
            n == arr@.len(),
            arr@ == s.spec_bytes(),
            res == hash_poly(arr@, i as int) % m,
            k == (crate::math::pow_spec(31, i as nat) as int) % m,
            m == 0x1_0000_0000_0000_0000,
        decreases n - i,
    {
        let ch = arr[i];
        let ghost p31 = crate::math::pow_spec(31, i as nat) as int;
        proof {
            vstd::arithmetic::div_mod::lemma_mul_mod_noop_right(ch as int, p31, m);
            vstd::arithmetic::div_mod::lemma_add_mod_noop(hash_poly(arr@, i as int), (ch as int)
                * p31, m);
            assert(crate::math::pow_spec(31, (i + 1) as nat) == 31 * crate::math::pow_spec(
                31,
                i as nat,
            ));
            vstd::arithmetic::div_mod::lemma_mul_mod_noop_right(31, p31, m);
            assert(hash_poly(arr@, i + 1 as int) == hash_poly(arr@, i as int) + ch * p31);
        }
        res = res.wrapping_add((ch as u64).wrapping_mul(k));
        k = k.wrapping_mul(31);
        i += 1;
    }
    res
}

/// One position of the text with its current radix-sort key pair.
#[derive(Clone, Copy)]
struct KeyPos {
    k1: usize,
    k2: usize,
    pos: usize,
}

spec fn filt1(s: Seq<KeyPos>, k: int) -> Seq<KeyPos> {
    s.filter(|e: KeyPos| e.k1 == k)
}

/// The bucket concatenation of `s` by first key: all elements with key 0,
/// then all with key 1, and so on below `k`, each group in input order.
spec fn cat1(s: Seq<KeyPos>, k: int) -> Seq<KeyPos>
    decreases k,
{
    if k <= 0 {
        Seq::empty()
    } else {
        cat1(s, k - 1) + filt1(s, k - 1)
    }
}

proof fn lemma_filt1_push(s: Seq<KeyPos>, e: KeyPos, k: int)
    ensures
        e.k1 == k ==> filt1(s.push(e), k) == filt1(s, k).push(e),
        e.k1 != k ==> filt1(s.push(e), k) == filt1(s, k),
{
    reveal(Seq::filter);
    let sp = s.push(e);
    assert(sp.drop_last() =~= s);
    assert(sp.last() == e);
    assert(sp.len() == s.len() + 1);
}

proof fn lemma_cat1_agree(s1: Seq<KeyPos>, s2: Seq<KeyPos>, k: int)
    requires
        forall|j: int| 0 <= j < k ==> filt1(s1, j) == filt1(s2, j),
    ensures
        cat1(s1, k) == cat1(s2, k),
    decreases k,
{
    if k > 0 {
        lemma_cat1_agree(s1, s2, k - 1);
    }
}

proof fn lemma_cat1_push(s: Seq<KeyPos>, e: KeyPos, k: int)
    requires
        0 <= e.k1 < k,
    ensures
        cat1(s.push(e), k).to_multiset() == cat1(s, k).to_multiset().insert(e),
    decreases k,
{
    broadcast use vstd::seq_lib::group_to_multiset_ensures;

    lemma_filt1_push(s, e, k - 1);
    if e.k1 == k - 1 {
        assert forall|j: int| 0 <= j < k - 1 implies filt1(s.push(e), j) == filt1(s, j) by {
            lemma_filt1_push(s, e, j);
        }
        lemma_cat1_agree(s.push(e), s, k - 1);
        Seq::push_distributes_over_add(cat1(s, k - 1), filt1(s, k - 1), e);
        assert(cat1(s.push(e), k) == (cat1(s, k - 1) + filt1(s, k - 1)).push(e));
    } else {
        lemma_cat1_push(s, e, k - 1);
        vstd::seq_lib::lemma_multiset_commutative(cat1(s.push(e), k - 1), filt1(s, k - 1));
        vstd::seq_lib::lemma_multiset_commutative(cat1(s, k - 1), filt1(s, k - 1));
        assert(cat1(s.push(e), k - 1).to_multiset().add(filt1(s, k - 1).to_multiset()) =~= (cat1(
            s,
            k - 1,
        ).to_multiset().add(filt1(s, k - 1).to_multiset())).insert(e));
    }
}

proof fn lemma_cat1_empty(k: int)
    ensures
        cat1(Seq::<KeyPos>::empty(), k) == Seq::<KeyPos>::empty(),
    decreases k,
{
    reveal(Seq::filter);
    if k > 0 {
        lemma_cat1_empty(k - 1);
        assert(filt1(Seq::<KeyPos>::empty(), k - 1) == Seq::<KeyPos>::empty());
        assert(cat1(Seq::<KeyPos>::empty(), k) =~= Seq::<KeyPos>::empty());
    }
}

/// Bucketing by first key only permutes the sequence.
proof fn lemma_cat1_multiset(s: Seq<KeyPos>, bound: int)
    requires
        0 <= bound,
        forall|i: int| 0 <= i < s.len() ==> (#[trigger] s[i]).k1 < bound,
    ensures
        cat1(s, bound).to_multiset() == s.to_multiset(),
    decreases s.len(),
{
    broadcast use vstd::seq_lib::group_to_multiset_ensures;

    if s.len() == 0 {
        lemma_cat1_empty(bound);
        assert(s =~= Seq::<KeyPos>::empty());
        assert(cat1(s, bound).to_multiset() =~= s.to_multiset());
    } else {
        let s0 = s.drop_last();
        let e = s.last();
        assert(s =~= s0.push(e));
        assert(forall|i: int| 0 <= i < s0.len() ==> (#[trigger] s0[i]).k1 < bound);
        lemma_cat1_multiset(s0, bound);
        lemma_cat1_push(s0, e, bound);
        assert(cat1(s, bound) == cat1(s0.push(e), bound));
        assert(s.to_multiset() == s0.push(e).to_multiset());
        assert(s0.push(e).to_multiset() =~= s0.to_multiset().insert(e));
    }
}

proof fn lemma_filt1_key(s: Seq<KeyPos>, k: int, i: int)
    requires
        0 <= i < filt1(s, k).len(),
    ensures
        filt1(s, k)[i].k1 == k,
{
    broadcast use Seq::lemma_filter_pred;

}

/// Bucket concatenation is grouped by ascending first key.
proof fn lemma_cat1_sorted(s: Seq<KeyPos>, k: int)
    ensures
        forall|i: int| 0 <= i < cat1(s, k).len() ==> (#[trigger] cat1(s, k)[i]).k1 < k,
        forall|i: int, j: int|
            0 <= i < j < cat1(s, k).len() ==> cat1(s, k)[i].k1 <= cat1(s, k)[j].k1,
    decreases k,
{
    if k > 0 {
        lemma_cat1_sorted(s, k - 1);
        let prev = cat1(s, k - 1);
        let seg = filt1(s, k - 1);
        assert forall|i: int| 0 <= i < cat1(s, k).len() implies (#[trigger] cat1(s, k)[i]).k1
            < k by {
            if i < prev.len() {
                assert(cat1(s, k)[i] == prev[i]);
            } else {
                assert(cat1(s, k)[i] == seg[i - prev.len()]);
                lemma_filt1_key(s, k - 1, i - prev.len());
            }
        }
        assert forall|i: int, j: int|
            0 <= i < j < cat1(s, k).len() implies cat1(s, k)[i].k1 <= cat1(s, k)[j].k1 by {
            if i < prev.len() {
                assert(cat1(s, k)[i] == prev[i]);
            } else {
                assert(cat1(s, k)[i] == seg[i - prev.len()]);
                lemma_filt1_key(s, k - 1, i - prev.len());
            }
            if j < prev.len() {
                assert(cat1(s, k)[j] == prev[j]);
            } else {
                assert(cat1(s, k)[j] == seg[j - prev.len()]);
                lemma_filt1_key(s, k - 1, j - prev.len());
            }
        }
    }
}

/// A stable counting sort of the entries by their first key.
fn counting_sort_k1(arr: Vec<KeyPos>, bound: usize) -> (out: Vec<KeyPos>)
    requires
        forall|i: int| 0 <= i < arr@.len() ==> (#[trigger] arr@[i]).k1 < bound,
    ensures
        out@.to_multiset() == arr@.to_multiset(),
        out@.len() == arr@.len(),
        forall|i: int, j: int| 0 <= i < j < out@.len() ==> out@[i].k1 <= out@[j].k1,
{
    broadcast use vstd::seq_lib::group_to_multiset_ensures;

    let mut buckets: Vec<Vec<KeyPos>> = Vec::new();
    let mut k: usize = 0;
    while k < bound
        invariant
            buckets@.len() == k,
            k <= bound,
            forall|j: int| 0 <= j < k ==> (#[trigger] buckets@[j])@ =~= Seq::<KeyPos>::empty(),
        decreases bound - k,
    {
        buckets.push(Vec::new());
        k += 1;
    }
    proof {
        reveal(Seq::filter);
        assert(arr@.subrange(0, 0) =~= Seq::<KeyPos>::empty());
        assert forall|j: int| 0 <= j < bound implies (#[trigger] buckets@[j])@ == filt1(
            arr@.subrange(0, 0),
            j,
        ) by {
            assert(filt1(Seq::<KeyPos>::empty(), j) == Seq::<KeyPos>::empty());
        }
    }
    let n = arr.len();
    let mut i: usize = 0;
    while i < n
        invariant
            i <= n,
            n == arr@.len(),
            buckets@.len() == bound,
            forall|i2: int| 0 <= i2 < arr@.len() ==> (#[trigger] arr@[i2]).k1 < bound,
            forall|j: int|
                0 <= j < bound ==> (#[trigger] buckets@[j])@ == filt1(arr@.subrange(0, i as int), j),
        decreases n - i,
    {
        let e = arr[i];
        let key = e.k1;
        buckets[key].push(e);
        proof {
            assert(arr@.subrange(0, (i + 1) as int) =~= arr@.subrange(0, i as int).push(e));
            assert forall|j: int|
                0 <= j < bound implies (#[trigger] buckets@[j])@ == filt1(
                arr@.subrange(0, (i + 1) as int),
                j,
            ) by {
                lemma_filt1_push(arr@.subrange(0, i as int), e, j);
            }
        }
        i += 1;
    }
    proof {
        assert(arr@.subrange(0, n as int) =~= arr@);
    }
    let mut out: Vec<KeyPos> = Vec::new();
    let mut g: usize = 0;
    proof {
        assert(out@ =~= cat1(arr@, 0));
    }
    while g < bound
        invariant
            g <= bound,
            buckets@.len() == bound,
            forall|j2: int| 0 <= j2 < bound ==> (#[trigger] buckets@[j2])@ == filt1(arr@, j2),
            out@ == cat1(arr@, g as int),
        decreases bound - g,
    {
        let b_len = buckets[g].len();
        let mut j: usize = 0;
        while j < b_len
            invariant
                j <= b_len,
                g < bound,
                buckets@.len() == bound,
                b_len == (buckets@[g as int])@.len(),
                forall|j2: int| 0 <= j2 < bound ==> (#[trigger] buckets@[j2])@ == filt1(arr@, j2),
                out@ == cat1(arr@, g as int) + (buckets@[g as int])@.subrange(0, j as int),
            decreases b_len - j,
        {
            let e = buckets[g][j];
            out.push(e);
            proof {
                let bg = (buckets@[g as int])@;
                assert(bg.subrange(0, (j + 1) as int) =~= bg.subrange(0, j as int).push(e));
                Seq::push_distributes_over_add(
                    cat1(arr@, g as int),
                    (buckets@[g as int])@.subrange(0, j as int),
                    e,
                );
            }
            j += 1;
        }
        proof {
            assert((buckets@[g as int])@.subrange(0, b_len as int) =~= (buckets@[g as int])@);
            assert(out@ == cat1(arr@, (g + 1) as int));
        }
        g += 1;
    }
    proof {
        lemma_cat1_multiset(arr@, bound as int);
        lemma_cat1_sorted(arr@, bound as int);
        assert(out@.to_multiset().len() == out@.len());
        assert(arr@.to_multiset().len() == arr@.len());
    }
    out
}
spec fn filt2(s: Seq<KeyPos>, k: int) -> Seq<KeyPos> {
    s.filter(|e: KeyPos| e.k2 == k)
}

/// The bucket concatenation of `s` by second key: all elements with key 0,
/// then all with key 1, and so on below `k`, each group in input order.
spec fn cat2(s: Seq<KeyPos>, k: int) -> Seq<KeyPos>
    decreases k,
{
    if k <= 0 {
        Seq::empty()
    } else {
        cat2(s, k - 1) + filt2(s, k - 1)
    }
}

proof fn lemma_filt2_push(s: Seq<KeyPos>, e: KeyPos, k: int)
    ensures
        e.k2 == k ==> filt2(s.push(e), k) == filt2(s, k).push(e),
        e.k2 != k ==> filt2(s.push(e), k) == filt2(s, k),
{
    reveal(Seq::filter);
    let sp = s.push(e);
    assert(sp.drop_last() =~= s);
    assert(sp.last() == e);
    assert(sp.len() == s.len() + 1);
}

proof fn lemma_cat2_agree(s1: Seq<KeyPos>, s2: Seq<KeyPos>, k: int)
    requires
        forall|j: int| 0 <= j < k ==> filt2(s1, j) == filt2(s2, j),
    ensures
        cat2(s1, k) == cat2(s2, k),
    decreases k,
{
    if k > 0 {
        lemma_cat2_agree(s1, s2, k - 1);
    }
}

proof fn lemma_cat2_push(s: Seq<KeyPos>, e: KeyPos, k: int)
    requires
        0 <= e.k2 < k,
    ensures
        cat2(s.push(e), k).to_multiset() == cat2(s, k).to_multiset().insert(e),
    decreases k,
{
    broadcast use vstd::seq_lib::group_to_multiset_ensures;

    lemma_filt2_push(s, e, k - 1);
    if e.k2 == k - 1 {
        assert forall|j: int| 0 <= j < k - 1 implies filt2(s.push(e), j) == filt2(s, j) by {
            lemma_filt2_push(s, e, j);
        }
        lemma_cat2_agree(s.push(e), s, k - 1);
        Seq::push_distributes_over_add(cat2(s, k - 1), filt2(s, k - 1), e);
        assert(cat2(s.push(e), k) == (cat2(s, k - 1) + filt2(s, k - 1)).push(e));
    } else {
        lemma_cat2_push(s, e, k - 1);
        vstd::seq_lib::lemma_multiset_commutative(cat2(s.push(e), k - 1), filt2(s, k - 1));
        vstd::seq_lib::lemma_multiset_commutative(cat2(s, k - 1), filt2(s, k - 1));
        assert(cat2(s.push(e), k - 1).to_multiset().add(filt2(s, k - 1).to_multiset()) =~= (cat2(
            s,
            k - 1,
        ).to_multiset().add(filt2(s, k - 1).to_multiset())).insert(e));
    }
}

proof fn lemma_cat2_empty(k: int)
    ensures
        cat2(Seq::<KeyPos>::empty(), k) == Seq::<KeyPos>::empty(),
    decreases k,
{
    reveal(Seq::filter);
    if k > 0 {
        lemma_cat2_empty(k - 1);
        assert(filt2(Seq::<KeyPos>::empty(), k - 1) == Seq::<KeyPos>::empty());
        assert(cat2(Seq::<KeyPos>::empty(), k) =~= Seq::<KeyPos>::empty());
    }
}

/// Bucketing by second key only permutes the sequence.
proof fn lemma_cat2_multiset(s: Seq<KeyPos>, bound: int)
    requires
        0 <= bound,
        forall|i: int| 0 <= i < s.len() ==> (#[trigger] s[i]).k2 < bound,
    ensures
        cat2(s, bound).to_multiset() == s.to_multiset(),
    decreases s.len(),
{
    broadcast use vstd::seq_lib::group_to_multiset_ensures;

    if s.len() == 0 {
        lemma_cat2_empty(bound);
        assert(s =~= Seq::<KeyPos>::empty());
        assert(cat2(s, bound).to_multiset() =~= s.to_multiset());
    } else {
        let s0 = s.drop_last();
        let e = s.last();
        assert(s =~= s0.push(e));
        assert(forall|i: int| 0 <= i < s0.len() ==> (#[trigger] s0[i]).k2 < bound);
        lemma_cat2_multiset(s0, bound);
        lemma_cat2_push(s0, e, bound);
        assert(cat2(s, bound) == cat2(s0.push(e), bound));
        assert(s.to_multiset() == s0.push(e).to_multiset());
        assert(s0.push(e).to_multiset() =~= s0.to_multiset().insert(e));
    }
}

proof fn lemma_filt2_key(s: Seq<KeyPos>, k: int, i: int)
    requires
        0 <= i < filt2(s, k).len(),
    ensures
        filt2(s, k)[i].k2 == k,
{
    broadcast use Seq::lemma_filter_pred;

}

/// Bucket concatenation is grouped by ascending second key.
proof fn lemma_cat2_sorted(s: Seq<KeyPos>, k: int)
    ensures
        forall|i: int| 0 <= i < cat2(s, k).len() ==> (#[trigger] cat2(s, k)[i]).k2 < k,
        forall|i: int, j: int|
            0 <= i < j < cat2(s, k).len() ==> cat2(s, k)[i].k2 <= cat2(s, k)[j].k2,
    decreases k,
{
    if k > 0 {
        lemma_cat2_sorted(s, k - 1);
        let prev = cat2(s, k - 1);
        let seg = filt2(s, k - 1);
        assert forall|i: int| 0 <= i < cat2(s, k).len() implies (#[trigger] cat2(s, k)[i]).k2
            < k by {
            if i < prev.len() {
                assert(cat2(s, k)[i] == prev[i]);
            } else {
                assert(cat2(s, k)[i] == seg[i - prev.len()]);
                lemma_filt2_key(s, k - 1, i - prev.len());
            }
        }
        assert forall|i: int, j: int|
            0 <= i < j < cat2(s, k).len() implies cat2(s, k)[i].k2 <= cat2(s, k)[j].k2 by {
            if i < prev.len() {
                assert(cat2(s, k)[i] == prev[i]);
            } else {
                assert(cat2(s, k)[i] == seg[i - prev.len()]);
                lemma_filt2_key(s, k - 1, i - prev.len());
            }
            if j < prev.len() {
                assert(cat2(s, k)[j] == prev[j]);
            } else {
                assert(cat2(s, k)[j] == seg[j - prev.len()]);
                lemma_filt2_key(s, k - 1, j - prev.len());
            }
        }
    }
}

/// A stable counting sort of the entries by their second key.
fn counting_sort_k2(arr: Vec<KeyPos>, bound: usize) -> (out: Vec<KeyPos>)
    requires
        forall|i: int| 0 <= i < arr@.len() ==> (#[trigger] arr@[i]).k2 < bound,
    ensures
        out@.to_multiset() == arr@.to_multiset(),
        out@.len() == arr@.len(),
        forall|i: int, j: int| 0 <= i < j < out@.len() ==> out@[i].k2 <= out@[j].k2,
{
    broadcast use vstd::seq_lib::group_to_multiset_ensures;

    let mut buckets: Vec<Vec<KeyPos>> = Vec::new();
    let mut k: usize = 0;
    while k < bound
        invariant
            buckets@.len() == k,
            k <= bound,
            forall|j: int| 0 <= j < k ==> (#[trigger] buckets@[j])@ =~= Seq::<KeyPos>::empty(),
        decreases bound - k,
    {
        buckets.push(Vec::new());
        k += 1;
    }
    proof {
        reveal(Seq::filter);
        assert(arr@.subrange(0, 0) =~= Seq::<KeyPos>::empty());
        assert forall|j: int| 0 <= j < bound implies (#[trigger] buckets@[j])@ == filt2(
            arr@.subrange(0, 0),
            j,
        ) by {
            assert(filt2(Seq::<KeyPos>::empty(), j) == Seq::<KeyPos>::empty());
        }
    }
    let n = arr.len();
    let mut i: usize = 0;
    while i < n
        invariant
            i <= n,
            n == arr@.len(),
            buckets@.len() == bound,
            forall|i2: int| 0 <= i2 < arr@.len() ==> (#[trigger] arr@[i2]).k2 < bound,
            forall|j: int|
                0 <= j < bound ==> (#[trigger] buckets@[j])@ == filt2(arr@.subrange(0, i as int), j),
        decreases n - i,
    {
        let e = arr[i];
        let key = e.k2;
        buckets[key].push(e);
        proof {
            assert(arr@.subrange(0, (i + 1) as int) =~= arr@.subrange(0, i as int).push(e));
            assert forall|j: int|
                0 <= j < bound implies (#[trigger] buckets@[j])@ == filt2(
                arr@.subrange(0, (i + 1) as int),
                j,
            ) by {
                lemma_filt2_push(arr@.subrange(0, i as int), e, j);
            }
        }
        i += 1;
    }
    proof {
        assert(arr@.subrange(0, n as int) =~= arr@);
    }
    let mut out: Vec<KeyPos> = Vec::new();
    let mut g: usize = 0;
    proof {
        assert(out@ =~= cat2(arr@, 0));
    }
    while g < bound
        invariant
            g <= bound,
            buckets@.len() == bound,
            forall|j2: int| 0 <= j2 < bound ==> (#[trigger] buckets@[j2])@ == filt2(arr@, j2),
            out@ == cat2(arr@, g as int),
        decreases bound - g,
    {
        let b_len = buckets[g].len();
        let mut j: usize = 0;
        while j < b_len
            invariant
                j <= b_len,
                g < bound,
                buckets@.len() == bound,
                b_len == (buckets@[g as int])@.len(),
                forall|j2: int| 0 <= j2 < bound ==> (#[trigger] buckets@[j2])@ == filt2(arr@, j2),
                out@ == cat2(arr@, g as int) + (buckets@[g as int])@.subrange(0, j as int),
            decreases b_len - j,
        {
            let e = buckets[g][j];
            out.push(e);
            proof {
                let bg = (buckets@[g as int])@;
                assert(bg.subrange(0, (j + 1) as int) =~= bg.subrange(0, j as int).push(e));
                Seq::push_distributes_over_add(
                    cat2(arr@, g as int),
                    (buckets@[g as int])@.subrange(0, j as int),
                    e,
                );
            }
            j += 1;
        }
        proof {
            assert((buckets@[g as int])@.subrange(0, b_len as int) =~= (buckets@[g as int])@);
            assert(out@ == cat2(arr@, (g + 1) as int));
        }
        g += 1;
    }
    proof {
        lemma_cat2_multiset(arr@, bound as int);
        lemma_cat2_sorted(arr@, bound as int);
        assert(out@.to_multiset().len() == out@.len());
        assert(arr@.to_multiset().len() == arr@.len());
    }
    out
}

/// Some position of `s` holds the value `v`.
pub open spec fn seq_contains_val(s: Seq<usize>, v: int) -> bool {
    exists|i: int| 0 <= i < s.len() && s[i] == v
}

/// Some entry of `s` has `v` as its `pos` field.
spec fn has_pos(s: Seq<KeyPos>, v: int) -> bool {
    exists|i: int| 0 <= i < s.len() && (#[trigger] s[i]).pos == v
}

/// A permutation of entries whose `pos` fields enumerate `0..n` still has
/// in-range, pairwise-distinct `pos` fields covering every value.
proof fn lemma_perm_props(inp: Seq<KeyPos>, outp: Seq<KeyPos>)
    requires
        outp.to_multiset() == inp.to_multiset(),
        forall|q: int| 0 <= q < inp.len() ==> (#[trigger] inp[q]).pos == q,
    ensures
        outp.len() == inp.len(),
        forall|i: int| 0 <= i < outp.len() ==> (#[trigger] outp[i]).pos < inp.len(),
        forall|i: int, j: int| 0 <= i < j < outp.len() ==> outp[i].pos != outp[j].pos,
        forall|v: int| 0 <= v < inp.len() ==> #[trigger] has_pos(outp, v),
{
    broadcast use vstd::seq_lib::group_to_multiset_ensures;

    assert(outp.len() == outp.to_multiset().len());
    assert(inp.len() == inp.to_multiset().len());
    assert(inp.no_duplicates()) by {
        assert forall|i: int, j: int|
            0 <= i < inp.len() && 0 <= j < inp.len() && i != j implies inp[i] != inp[j] by {
            assert(inp[i].pos == i);
            assert(inp[j].pos == j);
        }
    }
    inp.lemma_multiset_has_no_duplicates();
    outp.lemma_multiset_has_no_duplicates_conv();
    assert forall|i: int|
        0 <= i < outp.len() implies (#[trigger] outp[i]).pos < inp.len() && inp[outp[i].pos as int]
            == outp[i] by {
        assert(outp.contains(outp[i]));
        assert(inp.to_multiset().count(outp[i]) > 0);
        assert(inp.contains(outp[i]));
        let q = choose|q: int| 0 <= q < inp.len() && inp[q] == outp[i];
        assert(inp[q].pos == q);
    }
    assert forall|i: int, j: int|
        0 <= i < j < outp.len() implies outp[i].pos != outp[j].pos by {
        if outp[i].pos == outp[j].pos {
            assert(inp[outp[i].pos as int] == outp[i]);
            assert(inp[outp[j].pos as int] == outp[j]);
            assert(outp[i] == outp[j]);
        }
    }
    assert forall|v: int| 0 <= v < inp.len() implies #[trigger] has_pos(outp, v) by {
        assert(inp[v] == inp[v]);
        assert(inp.contains(inp[v]));
        assert(outp.to_multiset().count(inp[v]) > 0);
        assert(outp.contains(inp[v]));
        let i = choose|i: int| 0 <= i < outp.len() && outp[i] == inp[v];
        assert(outp[i].pos == v);
    }
}

/// Keys of a permutation stay within the bounds of the original keys.
proof fn lemma_keys_bounded(inp: Seq<KeyPos>, outp: Seq<KeyPos>, b1: int, b2: int)
    requires
        outp.to_multiset() == inp.to_multiset(),
        forall|q: int| 0 <= q < inp.len() ==> (#[trigger] inp[q]).k1 < b1,
        forall|q: int| 0 <= q < inp.len() ==> (#[trigger] inp[q]).k2 < b2,
    ensures
        forall|i: int|
            0 <= i < outp.len() ==> (#[trigger] outp[i]).k1 < b1 && outp[i].k2 < b2,
{
    broadcast use vstd::seq_lib::group_to_multiset_ensures;

    assert forall|i: int|
        0 <= i < outp.len() implies (#[trigger] outp[i]).k1 < b1 && outp[i].k2 < b2 by {
        assert(outp.contains(outp[i]));
        assert(inp.to_multiset().count(outp[i]) > 0);
        assert(inp.contains(outp[i]));
        let q = choose|q: int| 0 <= q < inp.len() && inp[q] == outp[i];
        assert(inp[q].k1 < b1);
    }
}

/// Reads the sorted order out as the suffix array and assigns the rank
/// classes of the round: equal key pairs share a class, a strictly greater
/// pair opens the next class.
fn extract_sa_classes(sorted: &Vec<KeyPos>, Ghost(inp): Ghost<Seq<KeyPos>>) -> (r: (
    Vec<usize>,
    Vec<usize>,
))
    requires
        sorted@.to_multiset() == inp.to_multiset(),
        forall|q: int| 0 <= q < inp.len() ==> (#[trigger] inp[q]).pos == q,
        inp.len() == sorted@.len(),
        sorted@.len() >= 1,
    ensures
        r.0@.len() == sorted@.len(),
        r.1@.len() == sorted@.len(),
        forall|i: int| 0 <= i < sorted@.len() ==> r.0@[i] == (#[trigger] sorted@[i]).pos,
        forall|p: int| 0 <= p < r.1@.len() ==> (#[trigger] r.1@[p]) < r.1@.len(),
{
    proof {
        lemma_perm_props(inp, sorted@);
    }
    let n = sorted.len();
    let mut sa: Vec<usize> = Vec::new();
    let mut i: usize = 0;
    while i < n
        invariant
            i <= n,
            n == sorted@.len(),
            sa@.len() == i,
            forall|t: int| 0 <= t < i ==> sa@[t] == (#[trigger] sorted@[t]).pos,
        decreases n - i,
    {
        sa.push(sorted[i].pos);
        i += 1;
    }
    let mut classes: Vec<usize> = Vec::new();
    let mut z: usize = 0;
    while z < n
        invariant
            classes@.len() == z,
            z <= n,
        decreases n - z,
    {
        classes.push(0);
        z += 1;
    }
    proof {
        assert(sorted@[0].pos < n);
    }
    let first = sa[0];
    classes[first] = 0;
    let mut i2: usize = 1;
    while i2 < n
        invariant
            1 <= i2 <= n,
            n == sorted@.len(),
            n == inp.len(),
            sa@.len() == n,
            classes@.len() == n,
            forall|t: int| 0 <= t < n ==> sa@[t] == (#[trigger] sorted@[t]).pos,
            forall|t: int| 0 <= t < n ==> (#[trigger] sorted@[t]).pos < n,
            forall|t: int, u: int| 0 <= t < u < n ==> sorted@[t].pos != sorted@[u].pos,
            forall|t: int| 0 <= t < i2 ==> classes@[sorted@[t].pos as int] <= t,
        decreases n - i2,
    {
        let eq = sorted[i2].k1 == sorted[i2 - 1].k1 && sorted[i2].k2 == sorted[i2 - 1].k2;
        let prev = classes[sa[i2 - 1]];
        let c = if eq {
            prev
        } else {
            prev + 1
        };
        let tgt = sa[i2];
        classes[tgt] = c;
        proof {
            assert forall|t: int|
                0 <= t < i2 + 1 implies classes@[sorted@[t].pos as int] <= t by {
                if t < i2 {
                    assert(sorted@[t].pos != sorted@[i2 as int].pos);
                }
            }
        }
        i2 += 1;
    }
    proof {
        assert forall|p: int| 0 <= p < n implies (#[trigger] classes@[p]) < n by {
            assert(has_pos(sorted@, p));
            let t = choose|t: int| 0 <= t < sorted@.len() && (#[trigger] sorted@[t]).pos == p;
            assert(classes@[sorted@[t].pos as int] <= t);
        }
    }
    (sa, classes)
}

/// The suffix of `s` that starts at offset `i`.
pub open spec fn suffix_at(s: Seq<u8>, i: int) -> Seq<u8> {
    s.subrange(i, s.len() as int)
}

/// Lexicographic order on byte sequences: the shorter sequence wins a tie,
/// otherwise the first differing byte decides.
pub open spec fn lex_le(a: Seq<u8>, b: Seq<u8>) -> bool
    decreases a.len(),
{
    if a.len() == 0 {
        true
    } else if b.len() == 0 {
        false
    } else if a[0] < b[0] {
        true
    } else if a[0] > b[0] {
        false
    } else {
        lex_le(a.drop_first(), b.drop_first())
    }
}

/// The length of the longest common prefix of two byte sequences.
pub open spec fn common_prefix_len(a: Seq<u8>, b: Seq<u8>) -> int
    decreases a.len(),
{
    if a.len() == 0 || b.len() == 0 || a[0] != b[0] {
        0
    } else {
        1 + common_prefix_len(a.drop_first(), b.drop_first())
    }
}

/// The lexicographic order is total.
pub proof fn lemma_lex_total(a: Seq<u8>, b: Seq<u8>)
    ensures
        lex_le(a, b) || lex_le(b, a),
    decreases a.len(),
{
    if a.len() > 0 && b.len() > 0 && a[0] == b[0] {
        lemma_lex_total(a.drop_first(), b.drop_first());
    }
}

/// The lexicographic order is transitive.
pub proof fn lemma_lex_trans(a: Seq<u8>, b: Seq<u8>, c: Seq<u8>)
    requires
        lex_le(a, b),
        lex_le(b, c),
    ensures
        lex_le(a, c),
    decreases a.len(),
{
    if a.len() > 0 && b.len() > 0 && c.len() > 0 && a[0] == b[0] && b[0] == c[0] {
        lemma_lex_trans(a.drop_first(), b.drop_first(), c.drop_first());
    }
}

/// The lexicographic order holds both ways only between equal sequences.
pub proof fn lemma_lex_antisym(a: Seq<u8>, b: Seq<u8>)
    requires
        lex_le(a, b),
        lex_le(b, a),
    ensures
        a == b,
    decreases a.len(),
{
    if a.len() == 0 {
        assert(b.len() == 0);
        assert(a =~= b);
    } else {
        assert(b.len() > 0);
        assert(a[0] == b[0]);
        lemma_lex_antisym(a.drop_first(), b.drop_first());
        assert(a.drop_first() == b.drop_first());
        assert(a.len() == b.len()) by {
            assert(a.drop_first().len() == a.len() - 1);
            assert(b.drop_first().len() == b.len() - 1);
        }
        assert(a =~= b) by {
            assert forall|t: int| 0 <= t < a.len() implies a[t] == b[t] by {
                if t == 0 {
                    assert(a[0] == b[0]);
                } else {
                    assert(a[t] == a.drop_first()[t - 1]);
                    assert(b[t] == b.drop_first()[t - 1]);
                }
            }
        }
    }
}

/// The common prefix does not depend on the order of its two sequences.
pub proof fn lemma_cpl_sym(a: Seq<u8>, b: Seq<u8>)
    ensures
        common_prefix_len(a, b) == common_prefix_len(b, a),
    decreases a.len(),
{
    if a.len() > 0 && b.len() > 0 && a[0] == b[0] {
        lemma_cpl_sym(a.drop_first(), b.drop_first());
    }
}

/// The common prefix is never longer than either sequence.
pub proof fn lemma_cpl_le(a: Seq<u8>, b: Seq<u8>)
    ensures
        0 <= common_prefix_len(a, b) <= a.len(),
        common_prefix_len(a, b) <= b.len(),
    decreases a.len(),
{
    if a.len() > 0 && b.len() > 0 && a[0] == b[0] {
        lemma_cpl_le(a.drop_first(), b.drop_first());
    }
}

/// Across three ordered sequences, the outer common prefix is the shorter
/// of the two inner ones.
pub proof fn lemma_cpl_min(a: Seq<u8>, b: Seq<u8>, c: Seq<u8>)
    requires
        lex_le(a, b),
        lex_le(b, c),
    ensures
        common_prefix_len(a, c) == (if common_prefix_len(a, b) <= common_prefix_len(b, c) {
            common_prefix_len(a, b)
        } else {
            common_prefix_len(b, c)
        }),
    decreases a.len(),
{
    lemma_cpl_le(a, b);
    lemma_cpl_le(b, c);
    lemma_cpl_le(a, c);
    if a.len() == 0 {
        assert(common_prefix_len(a, c) == 0);
        assert(common_prefix_len(a, b) == 0);
    } else if b.len() == 0 {
        assert(!lex_le(a, b));
    } else if c.len() == 0 {
        assert(!lex_le(b, c));
    } else {
        if a[0] == c[0] {
            assert(a[0] <= b[0] && b[0] <= c[0]);
            assert(a[0] == b[0] && b[0] == c[0]);
            assert(lex_le(a.drop_first(), b.drop_first()));
            assert(lex_le(b.drop_first(), c.drop_first()));
            lemma_cpl_min(a.drop_first(), b.drop_first(), c.drop_first());
            assert(common_prefix_len(a, c) == 1 + common_prefix_len(a.drop_first(), c.drop_first()));
            assert(common_prefix_len(a, b) == 1 + common_prefix_len(a.drop_first(), b.drop_first()));
            assert(common_prefix_len(b, c) == 1 + common_prefix_len(b.drop_first(), c.drop_first()));
        } else {
            assert(common_prefix_len(a, c) == 0);
            if common_prefix_len(a, b) > 0 && common_prefix_len(b, c) > 0 {
                assert(a[0] == b[0] && b[0] == c[0]);
            }
        }
    }
}

/// Compares the suffixes of `bytes` at offsets `i` and `j` lexicographically.
fn suffix_le_at(bytes: &Vec<u8>, i: usize, j: usize) -> (r: bool)
    requires
        i <= bytes@.len(),
        j <= bytes@.len(),
        bytes@.len() <= 0x4000_0000,
    ensures
        r == lex_le(suffix_at(bytes@, i as int), suffix_at(bytes@, j as int)),
{
    let n = bytes.len();
    let mut k: usize = 0;
    while i + k < n && j + k < n && bytes[i + k] == bytes[j + k]
        invariant
            i + k <= n,
            j + k <= n,
            n == bytes@.len(),
            n <= 0x4000_0000,
            lex_le(suffix_at(bytes@, i as int), suffix_at(bytes@, j as int)) == lex_le(
                suffix_at(bytes@, (i + k) as int),
                suffix_at(bytes@, (j + k) as int),
            ),
        decreases n - k,
    {
        proof {
            let sa1 = suffix_at(bytes@, (i + k) as int);
            let sb1 = suffix_at(bytes@, (j + k) as int);
            assert(sa1.len() > 0 && sb1.len() > 0);
            assert(sa1[0] == bytes@[i + k] && sb1[0] == bytes@[j + k]);
            assert(sa1.drop_first() =~= suffix_at(bytes@, (i + k + 1) as int));
            assert(sb1.drop_first() =~= suffix_at(bytes@, (j + k + 1) as int));
        }
        k += 1;
    }
    proof {
        let sa1 = suffix_at(bytes@, (i + k) as int);
        let sb1 = suffix_at(bytes@, (j + k) as int);
        if i + k < n && j + k < n {
            assert(sa1[0] == bytes@[i + k] && sb1[0] == bytes@[j + k]);
        }
    }
    if i + k >= n {
        true
    } else if j + k >= n {
        false
    } else {
        bytes[i + k] < bytes[j + k]
    }
}

/// Counts how far the suffixes of `bytes` at offsets `i` and `j` agree.
fn common_prefix_at(bytes: &Vec<u8>, i: usize, j: usize) -> (r: usize)
    requires
        i <= bytes@.len(),
        j <= bytes@.len(),
        bytes@.len() <= 0x4000_0000,
    ensures
        r == common_prefix_len(suffix_at(bytes@, i as int), suffix_at(bytes@, j as int)),
{
    let n = bytes.len();
    let mut k: usize = 0;
    while i + k < n && j + k < n && bytes[i + k] == bytes[j + k]
        invariant
            i + k <= n,
            j + k <= n,
            n == bytes@.len(),
            n <= 0x4000_0000,
            common_prefix_len(suffix_at(bytes@, i as int), suffix_at(bytes@, j as int)) == k
                + common_prefix_len(
                suffix_at(bytes@, (i + k) as int),
                suffix_at(bytes@, (j + k) as int),
            ),
        decreases n - k,
    {
        proof {
            let sa1 = suffix_at(bytes@, (i + k) as int);
            let sb1 = suffix_at(bytes@, (j + k) as int);
            assert(sa1.len() > 0 && sb1.len() > 0);
            assert(sa1[0] == bytes@[i + k] && sb1[0] == bytes@[j + k]);
            assert(sa1.drop_first() =~= suffix_at(bytes@, (i + k + 1) as int));
            assert(sb1.drop_first() =~= suffix_at(bytes@, (j + k + 1) as int));
        }
        k += 1;
    }
    proof {
        let sa1 = suffix_at(bytes@, (i + k) as int);
        let sb1 = suffix_at(bytes@, (j + k) as int);
        if i + k < n && j + k < n {
            assert(sa1[0] == bytes@[i + k] && sb1[0] == bytes@[j + k]);
        }
        assert(common_prefix_len(sa1, sb1) == 0);
    }
    k
}

/// The offsets in `sa` before position `hi` stand in the lexicographic
/// order of their suffixes.
pub open spec fn suffix_sorted_upto(bytes: Seq<u8>, sa: Seq<usize>, hi: int) -> bool {
    forall|t: int|
        0 < t < hi ==> #[trigger] lex_le(
            suffix_at(bytes, sa[t - 1] as int),
            suffix_at(bytes, sa[t] as int),
        )
}

/// Swapping two positions keeps a sequence's bounds, distinctness and the
/// set of values it holds.
proof fn lemma_swap_props(s: Seq<usize>, a: int, b: int, bound: int)
    requires
        0 <= a < s.len(),
        0 <= b < s.len(),
        forall|t: int| 0 <= t < s.len() ==> (#[trigger] s[t]) < bound,
        forall|t: int, u: int| 0 <= t < u < s.len() ==> s[t] != s[u],
        forall|v: int| 0 <= v < bound ==> seq_contains_val(s, v),
    ensures
        forall|t: int|
            0 <= t < s.len() ==> (#[trigger] s.update(a, s[b]).update(b, s[a])[t]) < bound,
        forall|t: int, u: int|
            0 <= t < u < s.len() ==> s.update(a, s[b]).update(b, s[a])[t] != s.update(
                a,
                s[b],
            ).update(b, s[a])[u],
        forall|v: int| 0 <= v < bound ==> seq_contains_val(s.update(a, s[b]).update(b, s[a]), v),
{
    let s2 = s.update(a, s[b]).update(b, s[a]);
    assert forall|v: int| 0 <= v < bound implies seq_contains_val(s2, v) by {
        assert(seq_contains_val(s, v));
        let t = choose|t: int| 0 <= t < s.len() && s[t] == v;
        if t == a && a != b {
            assert(s2[b] == v);
        } else if t == b && a != b {
            assert(s2[a] == v);
        } else {
            assert(s2[t] == v);
        }
    }
}

/// Sorts the suffix offsets in `sa` into the lexicographic order of their
/// suffixes by neighbour exchanges.
fn sort_suffix_order(bytes: &Vec<u8>, sa: &mut Vec<usize>)
    requires
        old(sa)@.len() == bytes@.len(),
        bytes@.len() <= 0x4000_0000,
        forall|t: int| 0 <= t < old(sa)@.len() ==> (#[trigger] old(sa)@[t]) < old(sa)@.len(),
        forall|t: int, u: int| 0 <= t < u < old(sa)@.len() ==> old(sa)@[t] != old(sa)@[u],
        forall|v: int| 0 <= v < old(sa)@.len() ==> seq_contains_val(old(sa)@, v),
    ensures
        final(sa)@.len() == old(sa)@.len(),
        forall|t: int| 0 <= t < final(sa)@.len() ==> (#[trigger] final(sa)@[t]) < final(sa)@.len(),
        forall|t: int, u: int| 0 <= t < u < final(sa)@.len() ==> final(sa)@[t] != final(sa)@[u],
        forall|v: int| 0 <= v < final(sa)@.len() ==> seq_contains_val(final(sa)@, v),
        suffix_sorted_upto(bytes@, final(sa)@, final(sa)@.len() as int),
{
    let n = sa.len();
    if n == 0 {
        return ;
    }
    let mut i: usize = 1;
    while i < n
        invariant
            1 <= i <= n,
            n == sa@.len(),
            n == bytes@.len(),
            n <= 0x4000_0000,
            forall|t: int| 0 <= t < n ==> (#[trigger] sa@[t]) < n,
            forall|t: int, u: int| 0 <= t < u < n ==> sa@[t] != sa@[u],
            forall|v: int| 0 <= v < n ==> seq_contains_val(sa@, v),
            suffix_sorted_upto(bytes@, sa@, i as int),
        decreases n - i,
    {
        let m: usize = i + 1;
        let mut p: usize = i;
        while p > 0 && !suffix_le_at(bytes, sa[p - 1], sa[p])
            invariant
                p <= i < n,
                m == i + 1,
                n == sa@.len(),
                n == bytes@.len(),
                n <= 0x4000_0000,
                forall|t: int| 0 <= t < n ==> (#[trigger] sa@[t]) < n,
                forall|t: int, u: int| 0 <= t < u < n ==> sa@[t] != sa@[u],
                forall|v: int| 0 <= v < n ==> seq_contains_val(sa@, v),
                forall|t: int|
                    0 < t < m && t != p && t != p + 1 ==> #[trigger] lex_le(
                        suffix_at(bytes@, sa@[t - 1] as int),
                        suffix_at(bytes@, sa@[t] as int),
                    ),
                p + 1 < m ==> lex_le(
                    suffix_at(bytes@, sa@[p as int] as int),
                    suffix_at(bytes@, sa@[p + 1] as int),
                ),
                0 < p && p + 1 < m ==> lex_le(
                    suffix_at(bytes@, sa@[p - 1] as int),
                    suffix_at(bytes@, sa@[p + 1] as int),
                ),
            decreases p,
        {
            let ghost s0 = sa@;
            let va = sa[p - 1];
            let vb = sa[p];
            proof {
                lemma_lex_total(suffix_at(bytes@, va as int), suffix_at(bytes@, vb as int));
                lemma_swap_props(s0, p - 1, p as int, n as int);
            }
            sa[p - 1] = vb;
            sa[p] = va;
            proof {
                assert(sa@ == s0.update(p - 1, vb).update(p as int, va));
                assert(sa@ == s0.update(p - 1, s0[p as int]).update(p as int, s0[p - 1]));
            }
            p -= 1;
        }
        proof {
            assert forall|t: int|
                0 < t < m implies #[trigger] lex_le(
                suffix_at(bytes@, sa@[t - 1] as int),
                suffix_at(bytes@, sa@[t] as int),
            ) by {
                if t == p {
                } else if t == p + 1 {
                } else {
                }
            }
        }
        i = m;
    }
}

/// Suffix array by prefix doubling with stable counting sorts: returns the
/// suffix order, checked against the lexicographic order of the suffixes,
/// and the rank array that inverts it.
pub fn suffix_array(src: &str) -> (r: (Vec<usize>, Vec<usize>))
    requires
        src.spec_bytes().len() <= 0x4000_0000,
    ensures
        r.0@.len() == src.spec_bytes().len(),
        r.1@.len() == src.spec_bytes().len(),
        forall|i: int| 0 <= i < r.0@.len() ==> (#[trigger] r.0@[i]) < r.0@.len(),
        forall|i: int, j: int| 0 <= i < j < r.0@.len() ==> r.0@[i] != r.0@[j],
        forall|v: int| 0 <= v < r.0@.len() ==> seq_contains_val(r.0@, v),
        forall|p: int| 0 <= p < r.1@.len() ==> (#[trigger] r.1@[p]) < r.1@.len(),
        suffix_sorted_upto(src.spec_bytes(), r.0@, r.0@.len() as int),
        forall|i: int| 0 <= i < r.0@.len() ==> r.1@[#[trigger] r.0@[i] as int] == i,
{
    let bytes = src.as_bytes_vec();
    let length = bytes.len();
    if length == 0 {
        let r = (Vec::new(), Vec::new());
        return r;
    }
    let mut a: Vec<KeyPos> = Vec::new();
    let mut i: usize = 0;
    while i < length
        invariant
            i <= length,
            length == bytes@.len(),
            a@.len() == i,
            forall|t: int|
                0 <= t < i ==> (#[trigger] a@[t]).pos == t && a@[t].k1 < 256 && a@[t].k2 == 0,
        decreases length - i,
    {
        a.push(KeyPos { k1: bytes[i] as usize, k2: 0, pos: i });
        i += 1;
    }
    let ghost inp0 = a@;
    let sorted = counting_sort_k1(a, 256);
    proof {
        lemma_perm_props(inp0, sorted@);
    }
    let pair = extract_sa_classes(&sorted, Ghost(inp0));
    let mut suffix_arr = pair.0;
    let mut classes = pair.1;
    proof {
        assert forall|t: int|
            0 <= t < suffix_arr@.len() implies (#[trigger] suffix_arr@[t]) < length by {
            assert(suffix_arr@[t] == sorted@[t].pos);
        }
        assert forall|v: int| 0 <= v < length implies seq_contains_val(suffix_arr@, v) by {
            assert(has_pos(sorted@, v));
            let t = choose|t: int| 0 <= t < sorted@.len() && (#[trigger] sorted@[t]).pos == v;
            assert(suffix_arr@[t] == v);
        }
        assert forall|t: int, u: int|
            0 <= t < u < length implies suffix_arr@[t] != suffix_arr@[u] by {
            assert(suffix_arr@[t] == sorted@[t].pos);
            assert(suffix_arr@[u] == sorted@[u].pos);
        }
    }
    let mut w: usize = 1;
    while w < length
        invariant
            1 <= w,
            1 <= length <= 0x4000_0000,
            suffix_arr@.len() == length,
            classes@.len() == length,
            forall|t: int, u: int| 0 <= t < u < length ==> suffix_arr@[t] != suffix_arr@[u],
            forall|t: int| 0 <= t < length ==> (#[trigger] suffix_arr@[t]) < length,
            forall|v: int| 0 <= v < length ==> seq_contains_val(suffix_arr@, v),
            forall|p: int| 0 <= p < length ==> (#[trigger] classes@[p]) < length,
        decreases 2 * length - w,
    {
        let mut a2: Vec<KeyPos> = Vec::new();
        let mut i3: usize = 0;
        while i3 < length
            invariant
                i3 <= length,
                w < length,
                length <= 0x4000_0000,
                classes@.len() == length,
                forall|p: int| 0 <= p < length ==> (#[trigger] classes@[p]) < length,
                a2@.len() == i3,
                forall|t: int|
                    0 <= t < i3 ==> (#[trigger] a2@[t]).pos == t && a2@[t].k1 < length
                        && a2@[t].k2 < length,
            decreases length - i3,
        {
            let second = classes[(i3 + w) % length];
            a2.push(KeyPos { k1: classes[i3], k2: second, pos: i3 });
            i3 += 1;
        }
        let ghost inp = a2@;
        let a3 = counting_sort_k2(a2, length);
        proof {
            lemma_keys_bounded(inp, a3@, length as int, length as int);
        }
        let sorted2 = counting_sort_k1(a3, length);
        proof {
            assert(sorted2@.to_multiset() == inp.to_multiset());
            lemma_perm_props(inp, sorted2@);
        }
        let pair2 = extract_sa_classes(&sorted2, Ghost(inp));
        suffix_arr = pair2.0;
        classes = pair2.1;
        proof {
            assert forall|t: int|
                0 <= t < suffix_arr@.len() implies (#[trigger] suffix_arr@[t]) < length by {
                assert(suffix_arr@[t] == sorted2@[t].pos);
            }
            assert forall|t: int, u: int|
                0 <= t < u < length implies suffix_arr@[t] != suffix_arr@[u] by {
                assert(suffix_arr@[t] == sorted2@[t].pos);
                assert(suffix_arr@[u] == sorted2@[u].pos);
            }
            assert forall|v: int| 0 <= v < length implies seq_contains_val(suffix_arr@, v) by {
                assert(has_pos(sorted2@, v));
                let t = choose|t: int|
                    0 <= t < sorted2@.len() && (#[trigger] sorted2@[t]).pos == v;
                assert(suffix_arr@[t] == v);
            }
        }
        w = w * 2;
    }
    let mut in_order = true;
    let mut t: usize = 1;
    while in_order && t < length
        invariant
            1 <= t <= length,
            length == bytes@.len(),
            length <= 0x4000_0000,
            suffix_arr@.len() == length,
            forall|q: int| 0 <= q < length ==> (#[trigger] suffix_arr@[q]) < length,
            in_order ==> suffix_sorted_upto(bytes@, suffix_arr@, t as int),
        decreases (if in_order {
            1int
        } else {
            0int
        }), length - t,
    {
        if suffix_le_at(&bytes, suffix_arr[t - 1], suffix_arr[t]) {
            t += 1;
        } else {
            in_order = false;
        }
    }
    if !in_order {
        sort_suffix_order(&bytes, &mut suffix_arr);
    }
    let mut q2: usize = 0;
    while q2 < length
        invariant
            q2 <= length,
            suffix_arr@.len() == length,
            classes@.len() == length,
            forall|q: int| 0 <= q < length ==> (#[trigger] suffix_arr@[q]) < length,
            forall|q: int, u: int| 0 <= q < u < length ==> suffix_arr@[q] != suffix_arr@[u],
            forall|p: int| 0 <= p < length ==> (#[trigger] classes@[p]) < length,
            forall|q: int| 0 <= q < q2 ==> classes@[#[trigger] suffix_arr@[q] as int] == q,
        decreases length - q2,
    {
        let tgt = suffix_arr[q2];
        classes[tgt] = q2;
        proof {
            assert forall|q: int|
                0 <= q < q2 + 1 implies classes@[#[trigger] suffix_arr@[q] as int] == q by {
                if q < q2 {
                    assert(suffix_arr@[q] != suffix_arr@[q2 as int]);
                }
            }
        }
        q2 += 1;
    }
    (suffix_arr, classes)
}

/// Longest Common Prefix index over a suffix array: answers `lcp(i, j)`
/// queries for arbitrary text offsets through a range-minimum structure over
/// the adjacent-suffix LCP array built by Kasai's algorithm.
pub struct Lcp {
    data: crate::segment_tree::RmqMin,
    suffix_array: (Vec<usize>, Vec<usize>),
    pos_array: std::collections::BTreeMap<usize, usize>,
}

impl Lcp {
    /// The number of text offsets the index covers.
    pub closed spec fn text_len(self) -> int {
        self.suffix_array.0@.len() as int
    }

    /// The index is well formed: the position map is the inverse of the
    /// suffix array, and the range-minimum tree covers one slot per offset.
    pub closed spec fn wf(self) -> bool {
        let n = self.suffix_array.0@.len() as int;
        &&& self.data.wf()
        &&& self.data.spec_len() == n
        &&& (forall|k: usize| self.pos_array@.contains_key(k) <==> (k as int) < n)
        &&& (forall|k: usize|
            (k as int) < n ==> (#[trigger] self.pos_array@[k] as int) < n
                && self.suffix_array.0@[self.pos_array@[k] as int] == k)
    }

    /// The suffix order the index was built over.
    pub closed spec fn spec_sa(self) -> Seq<usize> {
        self.suffix_array.0@
    }

    /// The adjacent-suffix LCP slot at rank `t`.
    pub closed spec fn spec_slot(self, t: int) -> int {
        self.data.values()[t] as int
    }

    /// What `lcp` returns: the full remaining suffix length for equal
    /// offsets, the minimum of the LCP array strictly between the two ranks
    /// for distinct offsets, and nothing for an offset outside the text.
    pub closed spec fn lcp_spec(self, i: usize, j: usize) -> Option<usize> {
        let n = self.suffix_array.0@.len() as int;
        if i < n && j < n {
            if i == j {
                Some((n - 1 - i) as usize)
            } else {
                let pi = self.pos_array@[i];
                let pj = self.pos_array@[j];
                let lo = if pi <= pj {
                    pi
                } else {
                    pj
                };
                let hi = if pi <= pj {
                    pj
                } else {
                    pi
                };
                self.data.spec_query((lo + 1) as usize, hi)
            }
        } else {
            None
        }
    }

    /// Builds the index: Kasai's linear pass fills the LCP array of adjacent
    /// sorted suffixes, each slot is checked against the byte-wise common
    /// prefix of its two suffixes, and a position map inverts the suffix
    /// array.
    pub fn build(suffix_array: &Vec<usize>, classes: &Vec<usize>, text: &str) -> (r: Self)
        requires
            suffix_array@.len() == text.spec_bytes().len(),
            classes@.len() == text.spec_bytes().len(),
            text.spec_bytes().len() <= 0x800_0000,
            forall|i: int|
                0 <= i < suffix_array@.len() ==> (#[trigger] suffix_array@[i]) < suffix_array@.len(),
            forall|i: int, j: int|
                0 <= i < j < suffix_array@.len() ==> suffix_array@[i] != suffix_array@[j],
            forall|v: int| 0 <= v < suffix_array@.len() ==> seq_contains_val(suffix_array@, v),
            forall|p: int| 0 <= p < classes@.len() ==> (#[trigger] classes@[p]) < classes@.len(),
        ensures
            r.wf(),
            r.text_len() == text.spec_bytes().len(),
            r.spec_sa() == suffix_array@,
            forall|t: int|
                0 < t < suffix_array@.len() ==> #[trigger] r.spec_slot(t) == common_prefix_len(
                    suffix_at(text.spec_bytes(), suffix_array@[t - 1] as int),
                    suffix_at(text.spec_bytes(), suffix_array@[t] as int),
                ),
    {
        broadcast use vstd::laws_cmp::group_laws_cmp;

        let bytes = text.as_bytes_vec();
        let n = suffix_array.len();
        let mut lcp: Vec<usize> = Vec::new();
        let mut z: usize = 0;
        while z < n
            invariant
                lcp@.len() == z,
                z <= n,
            decreases n - z,
        {
            lcp.push(0);
            z += 1;
        }
        let mut k: usize = 0;
        let mut i: usize = 0;
        if n > 0 {
            while i < n - 1
                invariant
                    n >= 1,
                    i <= n - 1,
                    n == suffix_array@.len(),
                    n == classes@.len(),
                    n == bytes@.len(),
                    n <= 0x800_0000,
                    lcp@.len() == n,
                    k <= n,
                    forall|t: int| 0 <= t < n ==> (#[trigger] suffix_array@[t]) < n,
                    forall|p: int| 0 <= p < n ==> (#[trigger] classes@[p]) < n,
                decreases n - i,
            {
                let pi = classes[i];
                if pi > 0 {
                    let j = suffix_array[pi - 1];
                    while i + k < n && j + k < n && bytes[i + k] == bytes[j + k]
                        invariant
                            i < n,
                            j < n,
                            n == bytes@.len(),
                            n <= 0x800_0000,
                            k <= n,
                        decreases n - k,
                    {
                        k += 1;
                    }
                    lcp[pi] = k;
                    if k > 0 {
                        k -= 1;
                    }
                } else {
                    k = 0;
                }
                i += 1;
            }
        }
        let mut t2: usize = 1;
        while t2 < n
            invariant
                1 <= t2 <= n || n == 0,
                n == suffix_array@.len(),
                n == bytes@.len(),
                n <= 0x800_0000,
                lcp@.len() == n,
                forall|t: int| 0 <= t < n ==> (#[trigger] suffix_array@[t]) < n,
                forall|u: int|
                    0 < u < t2 ==> (#[trigger] lcp@[u]) == common_prefix_len(
                        suffix_at(bytes@, suffix_array@[u - 1] as int),
                        suffix_at(bytes@, suffix_array@[u] as int),
                    ),
            decreases n - t2,
        {
            let expect = common_prefix_at(&bytes, suffix_array[t2 - 1], suffix_array[t2]);
            if lcp[t2] != expect {
                lcp[t2] = expect;
            }
            t2 += 1;
        }
        let mut pos: std::collections::BTreeMap<usize, usize> = std::collections::BTreeMap::new();
        let mut idx: usize = 0;
        while idx < n
            invariant
                idx <= n,
                n == suffix_array@.len(),
                forall|t: int| 0 <= t < n ==> (#[trigger] suffix_array@[t]) < n,
                forall|t: int, u: int| 0 <= t < u < n ==> suffix_array@[t] != suffix_array@[u],
                forall|t: int|
                    0 <= t < idx ==> pos@.contains_key(#[trigger] suffix_array@[t])
                        && pos@[suffix_array@[t]] == t,
                forall|key: usize|
                    #[trigger] pos@.contains_key(key) ==> exists|t: int|
                        0 <= t < idx && suffix_array@[t] == key,
            decreases n - idx,
        {
            let key = suffix_array[idx];
            pos.insert(key, idx);
            proof {
                assert forall|t: int|
                    0 <= t < idx implies suffix_array@[t] != key by {}
                assert forall|key2: usize|
                    #[trigger] pos@.contains_key(key2) implies exists|t: int|
                    0 <= t < idx + 1 && suffix_array@[t] == key2 by {
                    if key2 == key {
                        assert(suffix_array@[idx as int] == key2);
                    }
                }
            }
            idx += 1;
        }
        let data = crate::segment_tree::RmqMin::new(&lcp);
        let r = Lcp { data, suffix_array: (suffix_array.clone(), classes.clone()), pos_array: pos };
        proof {
            assert forall|key: usize| r.pos_array@.contains_key(key) <==> (key as int)
                < n as int by {
                if r.pos_array@.contains_key(key) {
                    let t = choose|t: int| 0 <= t < n && suffix_array@[t] == key;
                    assert(suffix_array@[t] < n);
                }
                if (key as int) < n as int {
                    assert(seq_contains_val(suffix_array@, key as int));
                    let t = choose|t: int|
                        0 <= t < suffix_array@.len() && suffix_array@[t] == key as int;
                    assert(pos@.contains_key(suffix_array@[t]));
                }
            }
            assert forall|key: usize| (key as int) < n as int implies (
            #[trigger] r.pos_array@[key] as int) < n as int
                && r.suffix_array.0@[r.pos_array@[key] as int] == key by {
                assert(seq_contains_val(suffix_array@, key as int));
                let t = choose|t: int|
                    0 <= t < suffix_array@.len() && suffix_array@[t] == key as int;
                assert(pos@.contains_key(suffix_array@[t]) && pos@[suffix_array@[t]] == t);
            }
            assert(r.spec_sa() =~= suffix_array@);
            assert(r.data.values() == lcp@);
            assert forall|t: int| 0 < t < n implies #[trigger] r.spec_slot(t) == common_prefix_len(
                suffix_at(text.spec_bytes(), suffix_array@[t - 1] as int),
                suffix_at(text.spec_bytes(), suffix_array@[t] as int),
            ) by {
                assert(r.spec_slot(t) == lcp@[t]);
            }
        }
        r
    }

    /// Longest common prefix of the suffixes starting at text offsets `i`
    /// and `j`, or nothing when an offset is out of range.
    pub fn lcp(&self, i: usize, j: usize) -> (res: Option<usize>)
        requires
            self.wf(),
        ensures
            res == self.lcp_spec(i, j),
    {
        broadcast use vstd::laws_cmp::group_laws_cmp;

        let n = self.suffix_array.0.len();
        if let Some(pos_i) = self.pos_array.get(&i) {
            if let Some(pos_j) = self.pos_array.get(&j) {
                proof {
                    assert(self.pos_array@.contains_key(i));
                    assert(self.pos_array@.contains_key(j));
                }
                if *pos_i == *pos_j {
                    proof {
                        assert(self.suffix_array.0@[self.pos_array@[i] as int] == i);
                        assert(self.suffix_array.0@[self.pos_array@[j] as int] == j);
                    }
                    return Some(n - i - 1);
                }
                proof {
                    assert(i != j) by {
                        if i == j {
                            assert(self.pos_array@[i] == self.pos_array@[j]);
                        }
                    }
                }
                let a = *pos_i;
                let b = *pos_j;
                let lo = if a <= b {
                    a
                } else {
                    b
                };
                let hi = if a <= b {
                    b
                } else {
                    a
                };
                return self.data.query(lo + 1, hi);
            }
        }
        None
    }
}

/// Law: the longest common prefix of a suffix with itself is the whole
/// remaining suffix, the trailing terminator byte excluded.
pub proof fn lemma_lcp_self(l: &Lcp, i: usize)
    requires
        l.wf(),
        (i as int) < l.text_len(),
    ensures
        l.lcp_spec(i, i) == Some((l.text_len() - 1 - i) as usize),
{
}

/// Law: an LCP query does not depend on the order of its two offsets.
pub proof fn lemma_lcp_symmetric(l: &Lcp, i: usize, j: usize)
    requires
        l.wf(),
    ensures
        l.lcp_spec(i, j) == l.lcp_spec(j, i),
{
}

/// Law: a query answers exactly the offsets inside the text: something for
/// every in-range pair, nothing as soon as an offset is out of range.
pub proof fn lemma_lcp_range(l: &Lcp, i: usize, j: usize)
    requires
        l.wf(),
    ensures
        (l.lcp_spec(i, j) is Some) <==> (i as int) < l.text_len() && (j as int) < l.text_len(),
{
    let n = l.text_len();
    if (i as int) < n && (j as int) < n && i != j {
        let pi = l.pos_array@[i];
        let pj = l.pos_array@[j];
        assert(l.suffix_array.0@[pi as int] == i);
        assert(l.suffix_array.0@[pj as int] == j);
        assert(pi != pj);
    }
}

/// Two sorted enumerations of the same offsets coincide: suffixes at
/// distinct offsets have distinct lengths, so the order has no ties.
proof fn lemma_sorted_perm_unique(text: Seq<u8>, sa1: Seq<usize>, sa2: Seq<usize>)
    requires
        sa1.len() == sa2.len(),
        forall|t: int| 0 <= t < sa1.len() ==> ((#[trigger] sa1[t]) as int) <= text.len(),
        forall|t: int| 0 <= t < sa2.len() ==> ((#[trigger] sa2[t]) as int) <= text.len(),
        forall|t: int, u: int| 0 <= t < u < sa1.len() ==> sa1[t] != sa1[u],
        forall|t: int, u: int| 0 <= t < u < sa2.len() ==> sa2[t] != sa2[u],
        forall|v: int| seq_contains_val(sa1, v) <==> seq_contains_val(sa2, v),
        suffix_sorted_upto(text, sa1, sa1.len() as int),
        suffix_sorted_upto(text, sa2, sa2.len() as int),
    ensures
        sa1 == sa2,
    decreases sa1.len(),
{
    if sa1.len() == 0 {
        assert(sa1 =~= sa2);
    } else {
        assert(sa1[0] == sa2[0]) by {
            assert(seq_contains_val(sa1, sa1[0] as int));
            assert(seq_contains_val(sa2, sa1[0] as int));
            let p = choose|p: int| 0 <= p < sa2.len() && sa2[p] == sa1[0] as int;
            lemma_sorted_pair(text, sa2, 0, p);
            assert(seq_contains_val(sa2, sa2[0] as int));
            assert(seq_contains_val(sa1, sa2[0] as int));
            let q = choose|q: int| 0 <= q < sa1.len() && sa1[q] == sa2[0] as int;
            lemma_sorted_pair(text, sa1, 0, q);
            lemma_lex_antisym(
                suffix_at(text, sa1[0] as int),
                suffix_at(text, sa2[0] as int),
            );
            assert(suffix_at(text, sa1[0] as int).len() == text.len() - sa1[0]);
            assert(suffix_at(text, sa2[0] as int).len() == text.len() - sa2[0]);
        }
        let t1 = sa1.drop_first();
        let t2 = sa2.drop_first();
        assert forall|t: int| 0 <= t < t1.len() implies ((#[trigger] t1[t]) as int)
            <= text.len() by {
            assert(t1[t] == sa1[t + 1]);
        }
        assert forall|t: int| 0 <= t < t2.len() implies ((#[trigger] t2[t]) as int)
            <= text.len() by {
            assert(t2[t] == sa2[t + 1]);
        }
        assert forall|t: int, u: int| 0 <= t < u < t1.len() implies t1[t] != t1[u] by {
            assert(t1[t] == sa1[t + 1] && t1[u] == sa1[u + 1]);
        }
        assert forall|t: int, u: int| 0 <= t < u < t2.len() implies t2[t] != t2[u] by {
            assert(t2[t] == sa2[t + 1] && t2[u] == sa2[u + 1]);
        }
        assert forall|v: int| seq_contains_val(t1, v) <==> seq_contains_val(t2, v) by {
            assert(seq_contains_val(t1, v) <==> (seq_contains_val(sa1, v) && v != sa1[0])) by {
                if seq_contains_val(t1, v) {
                    let w = choose|w: int| 0 <= w < t1.len() && t1[w] == v;
                    assert(sa1[w + 1] == v);
                    assert(sa1[0] != sa1[w + 1]);
                }
                if seq_contains_val(sa1, v) && v != sa1[0] {
                    let w = choose|w: int| 0 <= w < sa1.len() && sa1[w] == v;
                    assert(w >= 1);
                    assert(t1[w - 1] == v);
                }
            }
            assert(seq_contains_val(t2, v) <==> (seq_contains_val(sa2, v) && v != sa2[0])) by {
                if seq_contains_val(t2, v) {
                    let w = choose|w: int| 0 <= w < t2.len() && t2[w] == v;
                    assert(sa2[w + 1] == v);
                    assert(sa2[0] != sa2[w + 1]);
                }
                if seq_contains_val(sa2, v) && v != sa2[0] {
                    let w = choose|w: int| 0 <= w < sa2.len() && sa2[w] == v;
                    assert(w >= 1);
                    assert(t2[w - 1] == v);
                }
            }
        }
        assert(suffix_sorted_upto(text, t1, t1.len() as int)) by {
            assert forall|t: int|
                0 < t < t1.len() implies #[trigger] lex_le(
                suffix_at(text, t1[t - 1] as int),
                suffix_at(text, t1[t] as int),
            ) by {
                assert(t1[t - 1] == sa1[t] && t1[t] == sa1[t + 1]);
                lemma_sorted_pair(text, sa1, t, t + 1);
            }
        }
        assert(suffix_sorted_upto(text, t2, t2.len() as int)) by {
            assert forall|t: int|
                0 < t < t2.len() implies #[trigger] lex_le(
                suffix_at(text, t2[t - 1] as int),
                suffix_at(text, t2[t] as int),
            ) by {
                assert(t2[t - 1] == sa2[t] && t2[t] == sa2[t + 1]);
                lemma_sorted_pair(text, sa2, t, t + 1);
            }
        }
        lemma_sorted_perm_unique(text, t1, t2);
        assert(sa1 =~= sa2) by {
            assert forall|t: int| 0 <= t < sa1.len() implies sa1[t] == sa2[t] by {
                if t > 0 {
                    assert(t1[t - 1] == t2[t - 1]);
                }
            }
        }
    }
}

/// Law: the sorted-permutation contract pins the suffix order completely:
/// any two suffix orders of one text that are both sorted permutations of
/// its offsets are equal, so equal texts give equal orders.
pub proof fn lemma_suffix_order_unique(text: Seq<u8>, sa1: Seq<usize>, sa2: Seq<usize>)
    requires
        sa1.len() == text.len(),
        sa2.len() == text.len(),
        forall|t: int| 0 <= t < sa1.len() ==> (#[trigger] sa1[t]) < sa1.len(),
        forall|t: int| 0 <= t < sa2.len() ==> (#[trigger] sa2[t]) < sa2.len(),
        forall|t: int, u: int| 0 <= t < u < sa1.len() ==> sa1[t] != sa1[u],
        forall|t: int, u: int| 0 <= t < u < sa2.len() ==> sa2[t] != sa2[u],
        forall|v: int| 0 <= v < sa1.len() ==> seq_contains_val(sa1, v),
        forall|v: int| 0 <= v < sa2.len() ==> seq_contains_val(sa2, v),
        suffix_sorted_upto(text, sa1, sa1.len() as int),
        suffix_sorted_upto(text, sa2, sa2.len() as int),
    ensures
        sa1 == sa2,
{
    assert forall|v: int| seq_contains_val(sa1, v) <==> seq_contains_val(sa2, v) by {
        if seq_contains_val(sa1, v) {
            let w = choose|w: int| 0 <= w < sa1.len() && sa1[w] == v;
            assert(0 <= v < sa2.len());
        }
        if seq_contains_val(sa2, v) {
            let w = choose|w: int| 0 <= w < sa2.len() && sa2[w] == v;
            assert(0 <= v < sa1.len());
        }
    }
    lemma_sorted_perm_unique(text, sa1, sa2);
}

/// Two offsets of a sorted suffix order compare like their positions.
proof fn lemma_sorted_pair(text: Seq<u8>, sa: Seq<usize>, lo: int, hi: int)
    requires
        suffix_sorted_upto(text, sa, sa.len() as int),
        0 <= lo <= hi < sa.len(),
    ensures
        lex_le(suffix_at(text, sa[lo] as int), suffix_at(text, sa[hi] as int)),
    decreases hi - lo,
{
    if lo == hi {
        lemma_lex_total(suffix_at(text, sa[lo] as int), suffix_at(text, sa[lo] as int));
    } else {
        lemma_sorted_pair(text, sa, lo, hi - 1);
        assert(lex_le(suffix_at(text, sa[hi - 1] as int), suffix_at(text, sa[hi] as int)));
        lemma_lex_trans(
            suffix_at(text, sa[lo] as int),
            suffix_at(text, sa[hi - 1] as int),
            suffix_at(text, sa[hi] as int),
        );
    }
}

/// Over a sorted suffix order with its adjacent-suffix LCP slots, the
/// minimum slot strictly between two positions is the common prefix of the
/// suffixes at those positions.
proof fn lemma_interval_min(text: Seq<u8>, sa: Seq<usize>, vals: Seq<usize>, lo: int, hi: int)
    requires
        suffix_sorted_upto(text, sa, sa.len() as int),
        vals.len() == sa.len(),
        forall|t: int|
            0 < t < sa.len() ==> (#[trigger] vals[t]) as int == common_prefix_len(
                suffix_at(text, sa[t - 1] as int),
                suffix_at(text, sa[t] as int),
            ),
        0 <= lo < hi < sa.len(),
    ensures
        crate::segment_tree::range_min(vals, lo + 1, hi + 1) as int == common_prefix_len(
            suffix_at(text, sa[lo] as int),
            suffix_at(text, sa[hi] as int),
        ),
    decreases hi - lo,
{
    if lo + 1 == hi {
        assert(crate::segment_tree::range_min(vals, hi as int, hi + 1) == crate::segment_tree::min2(
            vals[hi],
            crate::segment_tree::range_min(vals, hi + 1, hi + 1),
        ));
        assert(vals[hi] as int == common_prefix_len(
            suffix_at(text, sa[lo] as int),
            suffix_at(text, sa[hi] as int),
        ));
    } else {
        lemma_interval_min(text, sa, vals, lo + 1, hi);
        lemma_sorted_pair(text, sa, lo + 1, hi);
        lemma_sorted_pair(text, sa, lo, lo + 1);
        assert(lex_le(suffix_at(text, sa[lo] as int), suffix_at(text, sa[lo + 1] as int)));
        lemma_cpl_min(
            suffix_at(text, sa[lo] as int),
            suffix_at(text, sa[lo + 1] as int),
            suffix_at(text, sa[hi] as int),
        );
        lemma_cpl_le(suffix_at(text, sa[lo] as int), suffix_at(text, sa[lo + 1] as int));
        assert(crate::segment_tree::range_min(vals, lo + 1, hi + 1) == crate::segment_tree::min2(
            vals[lo + 1],
            crate::segment_tree::range_min(vals, lo + 2, hi + 1),
        ));
    }
}

/// Law: when the index holds the lexicographically sorted suffix order of a
/// text and the adjacent-suffix LCP slots, a query on two distinct in-range
/// offsets returns exactly the byte-wise common prefix of their suffixes.
pub proof fn lemma_lcp_exact(l: &Lcp, text: Seq<u8>, i: usize, j: usize)
    requires
        l.wf(),
        l.spec_sa().len() == text.len(),
        suffix_sorted_upto(text, l.spec_sa(), l.spec_sa().len() as int),
        forall|t: int|
            0 < t < l.spec_sa().len() ==> #[trigger] l.spec_slot(t) == common_prefix_len(
                suffix_at(text, l.spec_sa()[t - 1] as int),
                suffix_at(text, l.spec_sa()[t] as int),
            ),
        (i as int) < text.len(),
        (j as int) < text.len(),
        i != j,
    ensures
        l.lcp_spec(i, j) matches Some(v) && v as int == common_prefix_len(
            suffix_at(text, i as int),
            suffix_at(text, j as int),
        ),
{
    let n = text.len() as int;
    let sa = l.spec_sa();
    let vals = l.data.values();
    assert(l.text_len() == n);
    let pi = l.pos_array@[i];
    let pj = l.pos_array@[j];
    assert(sa[pi as int] == i);
    assert(sa[pj as int] == j);
    assert(pi != pj);
    assert forall|t: int|
        0 < t < sa.len() implies (#[trigger] vals[t]) as int == common_prefix_len(
        suffix_at(text, sa[t - 1] as int),
        suffix_at(text, sa[t] as int),
    ) by {
        assert(l.spec_slot(t) == vals[t] as int);
    }
    if pi <= pj {
        lemma_interval_min(text, sa, vals, pi as int, pj as int);
    } else {
        lemma_interval_min(text, sa, vals, pj as int, pi as int);
        lemma_cpl_sym(suffix_at(text, j as int), suffix_at(text, i as int));
    }
}

/// `a` is a suffix of `b`.
pub open spec fn is_suffix_of(a: Seq<u8>, b: Seq<u8>) -> bool {
    &&& a.len() <= b.len()
    &&& forall|t: int| 0 <= t < a.len() ==> #[trigger] a[t] == b[b.len() - a.len() + t]
}

proof fn lemma_suffix_trans(a: Seq<u8>, b: Seq<u8>, c: Seq<u8>)
    requires
        is_suffix_of(a, b),
        is_suffix_of(b, c),
    ensures
        is_suffix_of(a, c),
{
    assert forall|t: int| 0 <= t < a.len() implies #[trigger] a[t] == c[c.len() - a.len() + t] by {
        assert(a[t] == b[b.len() - a.len() + t]);
        assert(b[b.len() - a.len() + t] == c[c.len() - b.len() + (b.len() - a.len() + t)]);
    }
}

proof fn lemma_suffix_shorter(a: Seq<u8>, b: Seq<u8>, c: Seq<u8>)
    requires
        is_suffix_of(a, c),
        is_suffix_of(b, c),
        a.len() <= b.len(),
    ensures
        is_suffix_of(a, b),
{
    assert forall|t: int| 0 <= t < a.len() implies #[trigger] a[t] == b[b.len() - a.len() + t] by {
        assert(a[t] == c[c.len() - a.len() + t]);
        assert(b[b.len() - a.len() + t] == c[c.len() - b.len() + (b.len() - a.len() + t)]);
    }
}

proof fn lemma_suffix_equal_len(a: Seq<u8>, b: Seq<u8>, c: Seq<u8>)
    requires
        is_suffix_of(a, c),
        is_suffix_of(b, c),
        a.len() == b.len(),
    ensures
        a == b,
{
    assert forall|t: int| 0 <= t < a.len() implies a[t] == b[t] by {
        assert(a[t] == c[c.len() - a.len() + t]);
        assert(b[t] == c[c.len() - b.len() + t]);
    }
    assert(a =~= b);
}

proof fn lemma_suffix_push(a: Seq<u8>, b: Seq<u8>, x: u8)
    requires
        is_suffix_of(a, b),
    ensures
        is_suffix_of(a.push(x), b.push(x)),
{
    let ap = a.push(x);
    let bp = b.push(x);
    assert forall|t: int|
        0 <= t < ap.len() implies #[trigger] ap[t] == bp[bp.len() - ap.len() + t] by {
        if t < a.len() {
            assert(ap[t] == a[t]);
            assert(a[t] == b[b.len() - a.len() + t]);
            assert(bp[bp.len() - ap.len() + t] == b[b.len() - a.len() + t]);
        } else {
            assert(ap[t] == x);
            assert(bp[bp.len() - ap.len() + t] == x);
        }
    }
}

/// The pattern occurs ending at position `e` of the text exactly when it is
/// a suffix of the first `e` text bytes.
proof fn lemma_occurs_iff_suffix(t: Seq<u8>, p: Seq<u8>, e: int)
    requires
        p.len() <= e <= t.len(),
    ensures
        occurs_at(t, p, e - p.len()) <==> is_suffix_of(p, t.subrange(0, e)),
{
    let w = t.subrange(0, e);
    if occurs_at(t, p, e - p.len()) {
        assert forall|u: int| 0 <= u < p.len() implies #[trigger] p[u] == w[w.len() - p.len()
            + u] by {
            assert(t[e - p.len() + u] == p[u]);
        }
    }
    if is_suffix_of(p, w) {
        assert forall|u: int| 0 <= u < p.len() implies t[e - p.len() + u] == #[trigger] p[u] by {
            assert(p[u] == w[w.len() - p.len() + u]);
        }
    }
}

/// `p` is the last index of the dictionary holding its byte string; only
/// that index reports occurrences (a duplicate pattern's terminal id is
/// overwritten by the later insert).
pub open spec fn ac_last_holder<'a>(dict: Seq<&'a str>, p: int) -> bool {
    last_upto(dict, p, dict.len() as int)
}

/// No dictionary index in `(p, n)` holds the same byte string as `p`.
pub open spec fn last_upto<'a>(dict: Seq<&'a str>, p: int, n: int) -> bool {
    forall|q: int| p < q < n ==> (#[trigger] dict[q]).spec_bytes() != dict[p].spec_bytes()
}

/// One node of the pattern automaton: children by byte, the suffix (failure)
/// link, the output link to the nearest terminal on the suffix-link chain,
/// the pattern this node terminates, its depth, and the edge from its
/// parent.
struct VertexAhoCorasick {
    children: std::collections::BTreeMap<u8, usize>,
    link: usize,
    good_link: Option<usize>,
    pat_num: Option<usize>,
    pch: u8,
    parent: usize,
    depth: usize,
}

/// The node arena of the pattern automaton, with the ghost path label of
/// every node (the byte string spelled from the root) carried for the
/// correctness argument.
struct TrieAhoCorasick {
    arr: Vec<VertexAhoCorasick>,
    sz: usize,
    labels: Ghost<Seq<Seq<u8>>>,
}

/// The arena is a rooted trie over the ghost labels: edges extend a label
/// by their byte, labels are unique, every non-root node is its parent's
/// child, suffix links point at strictly shorter suffix labels, output
/// links at strictly shorter terminal suffix labels, and terminal ids stay
/// below `npats`.
spec fn trie_wf(arr: Seq<VertexAhoCorasick>, labels: Seq<Seq<u8>>, npats: int) -> bool {
    &&& arr.len() >= 1
    &&& labels.len() == arr.len()
    &&& labels[0].len() == 0
    &&& arr[0].pat_num is None
    &&& arr[0].link == 0
    &&& (forall|v: int| 0 <= v < arr.len() ==> (#[trigger] arr[v].depth) == labels[v].len())
    &&& (forall|v: int| 0 <= v < arr.len() ==> (#[trigger] labels[v]).len() <= v)
    &&& (forall|v: int| 1 <= v < arr.len() ==> (#[trigger] labels[v]).len() >= 1)
    &&& (forall|v: int, c: u8|
        #![trigger arr[v].children@.contains_key(c)]
        0 <= v < arr.len() && arr[v].children@.contains_key(c) ==> {
            let w = arr[v].children@[c] as int;
            &&& 1 <= w < arr.len()
            &&& labels[w] == labels[v].push(c)
        })
    &&& (forall|v: int|
        1 <= v < arr.len() ==> {
            let u = (#[trigger] arr[v].parent) as int;
            &&& 0 <= u < arr.len()
            &&& labels[u] == labels[v].drop_last()
            &&& arr[v].pch == labels[v].last()
            &&& arr[u].children@.contains_key(arr[v].pch)
            &&& arr[u].children@[arr[v].pch] == v
        })
    &&& (forall|v: int, w: int| 0 <= v < w < arr.len() ==> labels[v] != labels[w])
    &&& (forall|v: int|
        1 <= v < arr.len() ==> (#[trigger] arr[v].link) < arr.len() && is_suffix_of(
            labels[arr[v].link as int],
            labels[v],
        ) && labels[arr[v].link as int].len() < labels[v].len())
    &&& (forall|v: int|
        0 <= v < arr.len() ==> ((#[trigger] arr[v].good_link) matches Some(g) ==> {
            &&& 0 <= (g as int) < arr.len()
            &&& is_suffix_of(labels[g as int], labels[v])
            &&& labels[g as int].len() < labels[v].len()
            &&& arr[g as int].pat_num is Some
        }))
    &&& (forall|v: int|
        0 <= v < arr.len() ==> ((#[trigger] arr[v].pat_num) matches Some(p) ==> (p as int)
            < npats))
}

/// The suffix link of `v` is the longest strict suffix of `v`'s label that
/// is a node label.
spec fn link_correct(arr: Seq<VertexAhoCorasick>, labels: Seq<Seq<u8>>, v: int) -> bool {
    forall|w: int|
        1 <= w < arr.len() && is_suffix_of(#[trigger] labels[w], labels[v]) && labels[w].len()
            < labels[v].len() ==> labels[w].len() <= labels[arr[v].link as int].len()
}

/// The output link of `v` is the longest strict terminal suffix of `v`'s
/// label that is a node label, or nothing when there is none.
spec fn good_correct(arr: Seq<VertexAhoCorasick>, labels: Seq<Seq<u8>>, v: int) -> bool {
    match arr[v].good_link {
        Some(g) => forall|w: int|
            1 <= w < arr.len() && is_suffix_of(#[trigger] labels[w], labels[v]) && labels[w].len()
                < labels[v].len() && arr[w].pat_num is Some ==> labels[w].len()
                <= labels[g as int].len(),
        None => forall|w: int|
            1 <= w < arr.len() && is_suffix_of(#[trigger] labels[w], labels[v]) && labels[w].len()
                < labels[v].len() ==> arr[w].pat_num is None,
    }
}

impl TrieAhoCorasick {
    fn new() -> (r: TrieAhoCorasick)
        ensures
            trie_wf(r.arr@, r.labels@, 0),
            r.sz == r.arr@.len(),
            r.arr@.len() == 1,
            r.arr@[0].pat_num is None,
            r.labels@[0].len() == 0,
    {
        let mut arr: Vec<VertexAhoCorasick> = Vec::new();
        arr.push(
            VertexAhoCorasick {
                children: std::collections::BTreeMap::new(),
                link: 0,
                good_link: None,
                pat_num: None,
                pch: 0,
                parent: 0,
                depth: 0,
            },
        );
        let ghost l0: Seq<Seq<u8>> = seq![Seq::empty()];
        let r = TrieAhoCorasick { arr, sz: 1, labels: Ghost(l0) };
        proof {
            assert(r.arr@[0].children@ =~= Map::<u8, usize>::empty());
        }
        r
    }

    /// Inserts a pattern, creating nodes along its byte path, and marks the
    /// final node with the pattern id; the id of a duplicate pattern
    /// overwrites the earlier one at the same node. All other terminal
    /// marks, and the labels of existing nodes, stay as they were.
    fn insert(&mut self, s: &str, num: usize, Ghost(npats): Ghost<int>)
        requires
            trie_wf(old(self).arr@, old(self).labels@, npats),
            old(self).sz == old(self).arr@.len(),
            (num as int) < npats,
            s.spec_bytes().len() >= 1,
        ensures
            trie_wf(final(self).arr@, final(self).labels@, npats),
            final(self).sz == final(self).arr@.len(),
            final(self).arr@.len() >= old(self).arr@.len(),
            forall|w: int|
                0 <= w < old(self).arr@.len() ==> final(self).labels@[w] == old(self).labels@[w],
            exists|w: int|
                0 <= w < final(self).arr@.len() && final(self).labels@[w] == s.spec_bytes(),
            forall|w: int|
                0 <= w < final(self).arr@.len() ==> (#[trigger] final(self).arr@[w].pat_num) == (
                if final(self).labels@[w] == s.spec_bytes() {
                    Some(num)
                } else if w < old(self).arr@.len() {
                    old(self).arr@[w].pat_num
                } else {
                    None
                }),
    {
        broadcast use vstd::laws_cmp::group_laws_cmp;

        let bytes = s.as_bytes_vec();
        let mut v: usize = 0;
        let mut i: usize = 0;
        let n = bytes.len();
        while i < n
            invariant
                i <= n,
                n == bytes@.len(),
                bytes@ == s.spec_bytes(),
                trie_wf(self.arr@, self.labels@, npats),
                self.sz == self.arr@.len(),
                v < self.arr@.len(),
                self.labels@[v as int] == bytes@.subrange(0, i as int),
                self.arr@.len() >= old(self).arr@.len(),
                forall|w: int|
                    0 <= w < old(self).arr@.len() ==> self.labels@[w] == old(self).labels@[w],
                forall|w: int|
                    0 <= w < self.arr@.len() ==> (#[trigger] self.arr@[w].pat_num) == (if w < old(
                        self,
                    ).arr@.len() {
                        old(self).arr@[w].pat_num
                    } else {
                        None
                    }),
            decreases n - i,
        {
            let ch = bytes[i];
            let present = self.arr[v].children.contains_key(&ch);
            if !present {
                let idx = self.arr.len();
                let dv = self.arr[v].depth;
                let ghost arr0 = self.arr@;
                let ghost labels0 = self.labels@;
                self.arr.push(
                    VertexAhoCorasick {
                        children: std::collections::BTreeMap::new(),
                        link: 0,
                        good_link: None,
                        pat_num: None,
                        pch: ch,
                        parent: v,
                        depth: dv + 1,
                    },
                );
                proof {
                    self.labels@ = labels0.push(labels0[v as int].push(ch));
                }
                self.arr[v].children.insert(ch, idx);
                self.sz = self.arr.len();
                proof {
                    let arr2 = self.arr@;
                    let labels2 = self.labels@;
                    assert(arr2[idx as int].children@ =~= Map::<u8, usize>::empty());
                    assert(labels2[idx as int] == labels2[v as int].push(ch));
                    assert(labels2[idx as int].len() == i + 1);
                    assert(labels2[idx as int].drop_last() =~= labels2[v as int]);
                    assert forall|w: int, w2: int|
                        0 <= w < w2 < arr2.len() implies labels2[w] != labels2[w2] by {
                        if w2 == idx && labels2[w] == labels2[idx as int] {
                            assert(w >= 1);
                            assert(labels0[arr0[w].parent as int] == labels0[w].drop_last());
                            assert(labels0[w].drop_last() =~= labels0[v as int]);
                            assert(arr0[w].parent as int == v as int);
                            assert(arr0[w].pch == ch);
                            assert(arr0[v as int].children@.contains_key(ch));
                        }
                    }
                    assert forall|w: int, c: u8|
                        #![trigger arr2[w].children@.contains_key(c)]
                        0 <= w < arr2.len() && arr2[w].children@.contains_key(c) implies {
                        let ww = arr2[w].children@[c] as int;
                        &&& 1 <= ww < arr2.len()
                        &&& labels2[ww] == labels2[w].push(c)
                    } by {
                        if w == v && c != ch {
                            assert(arr0[w].children@.contains_key(c));
                        }
                        if w != v && w < idx {
                            assert(arr0[w].children@.contains_key(c));
                        }
                    }
                    assert forall|w: int|
                        1 <= w < arr2.len() implies {
                        let u = (#[trigger] arr2[w].parent) as int;
                        &&& 0 <= u < arr2.len()
                        &&& labels2[u] == labels2[w].drop_last()
                        &&& arr2[w].pch == labels2[w].last()
                        &&& arr2[u].children@.contains_key(arr2[w].pch)
                        &&& arr2[u].children@[arr2[w].pch] == w
                    } by {
                        if w < idx {
                            assert(arr0[w].parent == arr2[w].parent);
                            if arr2[w].parent as int == v as int {
                                assert(arr0[v as int].children@.contains_key(arr0[w].pch)
                                    && arr0[v as int].children@[arr0[w].pch] == w);
                                assert(arr2[w].pch != ch);
                            }
                        }
                    }
                }
                v = idx;
            } else {
                let next = *self.arr[v].children.get(&ch).unwrap();
                proof {
                    assert(self.arr@[v as int].children@.contains_key(ch));
                }
                v = next;
            }
            proof {
                assert(self.labels@[v as int] =~= bytes@.subrange(0, (i + 1) as int));
            }
            i += 1;
        }
        let ghost arr_before = self.arr@;
        self.arr[v].pat_num = Some(num);
        proof {
            assert(self.labels@[v as int] =~= s.spec_bytes());
            let arr2 = self.arr@;
            let labels2 = self.labels@;
            assert forall|w: int, c: u8|
                #![trigger arr2[w].children@.contains_key(c)]
                0 <= w < arr2.len() && arr2[w].children@.contains_key(c) implies {
                let ww = arr2[w].children@[c] as int;
                &&& 1 <= ww < arr2.len()
                &&& labels2[ww] == labels2[w].push(c)
            } by {
                assert(arr2[w].children@ == arr_before[w].children@);
                assert(arr_before[w].children@.contains_key(c));
            }
            assert forall|w: int|
                1 <= w < arr2.len() implies {
                let u = (#[trigger] arr2[w].parent) as int;
                &&& 0 <= u < arr2.len()
                &&& labels2[u] == labels2[w].drop_last()
                &&& arr2[w].pch == labels2[w].last()
                &&& arr2[u].children@.contains_key(arr2[w].pch)
                &&& arr2[u].children@[arr2[w].pch] == w
            } by {
                assert(arr2[w].parent == arr_before[w].parent);
                let u2 = arr_before[w].parent as int;
                assert(arr2[u2].children@ == arr_before[u2].children@);
            }
            assert(v as int >= 1);
            assert forall|w: int|
                0 <= w < arr2.len() implies (#[trigger] arr2[w].pat_num) == (if labels2[w]
                    == s.spec_bytes() {
                    Some(num)
                } else if w < old(self).arr@.len() {
                    old(self).arr@[w].pat_num
                } else {
                    None
                }) by {
                if w != v as int && labels2[w] == s.spec_bytes() {
                    assert(labels2[w] == labels2[v as int]);
                    assert(false);
                }
            }
        }
    }
}

/// All nodes with labels shorter than `bound` carry correct suffix and
/// output links.
spec fn resolved_below(arr: Seq<VertexAhoCorasick>, labels: Seq<Seq<u8>>, bound: int) -> bool {
    forall|v: int|
        1 <= v < arr.len() && (#[trigger] labels[v]).len() < bound ==> link_correct(arr, labels, v)
            && good_correct(arr, labels, v)
}

proof fn lemma_suffix_drop_last(a: Seq<u8>, b: Seq<u8>)
    requires
        is_suffix_of(a, b),
        a.len() >= 1,
    ensures
        is_suffix_of(a.drop_last(), b.drop_last()),
{
    let a2 = a.drop_last();
    let b2 = b.drop_last();
    assert forall|t: int|
        0 <= t < a2.len() implies #[trigger] a2[t] == b2[b2.len() - a2.len() + t] by {
        assert(a2[t] == a[t]);
        assert(a[t] == b[b.len() - a.len() + t]);
        assert(b2[b2.len() - a2.len() + t] == b[b.len() - a.len() + t]);
    }
}

/// Occurrences already collected for pattern `p` at start `x` after the
/// first `i` text bytes.
spec fn ac_across<'a>(dict: Seq<&'a str>, tb: Seq<u8>, i: int, p: int, x: int) -> bool {
    &&& 0 <= x
    &&& x + dict[p].spec_bytes().len() <= i
    &&& occurs_at(tb, dict[p].spec_bytes(), x)
    &&& ac_last_holder(dict, p)
}

/// Pattern `p` is a reportable suffix of the window `tw` (the text up to
/// the current position): it is the last holder of its string and that
/// string ends the window.
spec fn ac_term<'a>(dict: Seq<&'a str>, tw: Seq<u8>, p: int) -> bool {
    &&& 0 <= p < dict.len()
    &&& ac_last_holder(dict, p)
    &&& is_suffix_of(dict[p].spec_bytes(), tw)
}

/// Every terminal mark corresponds to the last dictionary holder of the
/// node's label, and every last holder has its marked node.
spec fn dict_pat_facts<'a>(
    arr: Seq<VertexAhoCorasick>,
    labels: Seq<Seq<u8>>,
    dict: Seq<&'a str>,
) -> bool {
    &&& (forall|w: int|
        0 <= w < arr.len() ==> ((#[trigger] arr[w].pat_num) matches Some(p) ==> 0 <= (p as int)
            < dict.len() && labels[w] == dict[p as int].spec_bytes() && ac_last_holder(
            dict,
            p as int,
        )))
    &&& (forall|p: int|
        0 <= p < dict.len() && #[trigger] ac_last_holder(dict, p) ==> exists|w: int|
            1 <= w < arr.len() && (#[trigger] labels[w]) == dict[p].spec_bytes() && arr[w].pat_num
                == Some(p as usize))
}

/// Every non-root node carries a correct suffix link and output link.
spec fn all_correct(arr: Seq<VertexAhoCorasick>, labels: Seq<Seq<u8>>) -> bool {
    forall|w: int|
        1 <= w < arr.len() ==> #[trigger] link_correct(arr, labels, w) && good_correct(
            arr,
            labels,
            w,
        )
}

/// The terminal-mark facts survive any rewrite that keeps the terminal
/// marks themselves.
proof fn lemma_dpf_frame<'a>(
    arr0: Seq<VertexAhoCorasick>,
    arr2: Seq<VertexAhoCorasick>,
    labels: Seq<Seq<u8>>,
    dict: Seq<&'a str>,
)
    requires
        dict_pat_facts(arr0, labels, dict),
        arr2.len() == arr0.len(),
        forall|w: int| 0 <= w < arr0.len() ==> (#[trigger] arr2[w]).pat_num == arr0[w].pat_num,
    ensures
        dict_pat_facts(arr2, labels, dict),
{
    assert(dict_pat_facts(arr2, labels, dict)) by {
        assert forall|w: int|
        0 <= w < arr2.len() implies ((#[trigger] arr2[w].pat_num) matches Some(p) ==> 0 <= (
        p as int) < dict.len() && labels[w] == dict[p as int].spec_bytes() && ac_last_holder(
            dict,
            p as int,
        )) by {
        assert(arr2[w].pat_num == arr0[w].pat_num);
    }
    assert forall|p: int|
        0 <= p < dict.len() && #[trigger] ac_last_holder(dict, p) implies exists|w: int|
        1 <= w < arr2.len() && (#[trigger] labels[w]) == dict[p].spec_bytes() && arr2[w].pat_num
            == Some(p as usize) by {
        let w = choose|w: int|
            1 <= w < arr0.len() && labels[w] == dict[p].spec_bytes() && arr0[w].pat_num == Some(
                p as usize,
            );
        assert(arr2[w].pat_num == arr0[w].pat_num);
        assert(1 <= w < arr2.len() && labels[w] == dict[p].spec_bytes() && arr2[w].pat_num
            == Some(p as usize));
    }

    }
}

/// The state label is the longest node label that ends the window.
spec fn state_ok(arr: Seq<VertexAhoCorasick>, labels: Seq<Seq<u8>>, tw: Seq<u8>, v: int) -> bool {
    &&& 0 <= v < arr.len()
    &&& is_suffix_of(labels[v], tw)
    &&& forall|w: int|
        1 <= w < arr.len() && is_suffix_of(#[trigger] labels[w], tw) ==> labels[w].len()
            <= labels[v].len()
}

/// The step threshold: the label length of the current output-chain node,
/// or zero once the chain is exhausted.
spec fn spec_thr(la: Seq<Seq<u8>>, g: Option<usize>) -> int {
    match g {
        Some(gn) => la[gn as int].len() as int,
        None => 0,
    }
}

/// The termination measure of an output-chain walk.
spec fn spec_gdec(la: Seq<Seq<u8>>, g: Option<usize>) -> nat {
    match g {
        Some(x) => la[x as int].len() + 1,
        None => 0nat,
    }
}

/// A reportable pattern no longer than the chain node's label either fits
/// under the node's output threshold or is the node's own terminal.
proof fn lemma_step_threshold<'a>(
    arr: Seq<VertexAhoCorasick>,
    la: Seq<Seq<u8>>,
    dict: Seq<&'a str>,
    tw2: Seq<u8>,
    node: int,
    p2: int,
)
    requires
        trie_wf(arr, la, dict.len() as int),
        dict_pat_facts(arr, la, dict),
        0 <= node < arr.len(),
        node == 0 || good_correct(arr, la, node),
        is_suffix_of(la[node], tw2),
        0 <= p2 < dict.len(),
        dict[p2].spec_bytes().len() >= 1,
        ac_term(dict, tw2, p2),
        dict[p2].spec_bytes().len() <= la[node].len(),
    ensures
        (dict[p2].spec_bytes().len() as int) <= spec_good_len(arr, la, node) || (dict[p2].spec_bytes().len() == la[node].len() && arr[node].pat_num == Some(p2 as usize)),
{
    if node == 0 {
        assert(la[0].len() == 0);
        assert(false);
    }
    let plen2 = dict[p2].spec_bytes().len() as int;
    let w = choose|w: int|
        1 <= w < arr.len() && la[w] == (#[trigger] dict[p2]).spec_bytes() && arr[w].pat_num
            == Some(p2 as usize);
    if plen2 == la[node].len() {
        lemma_suffix_equal_len(la[w], la[node], tw2);
    } else {
        lemma_suffix_shorter(la[w], la[node], tw2);
        match arr[node].good_link {
            Some(g) => {
                assert(la[w].len() <= la[g as int].len());
            },
            None => {
                assert(arr[w].pat_num is None);
                assert(false);
            },
        }
    }
}

/// No reportable pattern is longer than the scan state's label.
proof fn lemma_no_deep_term<'a>(
    arr: Seq<VertexAhoCorasick>,
    la: Seq<Seq<u8>>,
    dict: Seq<&'a str>,
    tw2: Seq<u8>,
    v: int,
    p2: int,
)
    requires
        trie_wf(arr, la, dict.len() as int),
        dict_pat_facts(arr, la, dict),
        state_ok(arr, la, tw2, v),
        0 <= p2 < dict.len(),
        ac_term(dict, tw2, p2),
    ensures
        dict[p2].spec_bytes().len() <= la[v].len(),
{
    let w = choose|w: int|
        1 <= w < arr.len() && la[w] == (#[trigger] dict[p2]).spec_bytes() && arr[w].pat_num
            == Some(p2 as usize);
    assert(is_suffix_of(la[w], tw2));
    assert(la[w].len() <= la[v].len());
}

/// Appends a start offset to one pattern's list, leaving the others alone.
fn record_hit(res: &mut Vec<Vec<usize>>, p: usize, start: usize)
    requires
        (p as int) < old(res)@.len(),
        old(res)@[p as int]@.len() == 0 || old(res)@[p as int]@.last() < start,
    ensures
        final(res)@.len() == old(res)@.len(),
        final(res)@[p as int]@ == old(res)@[p as int]@.push(start),
        forall|p2: int|
            0 <= p2 < old(res)@.len() && p2 != p ==> final(res)@[p2] == old(res)@[p2],
{
    res[p].push(start);
}

/// Algorithm Aho Corasick. Search for a set of substrings from the
/// dictionary in the given string. The result holds one entry per pattern:
/// the strictly ascending list of exactly the offsets at which that pattern
/// occurs in the text — attributed, for duplicated patterns, to the last
/// index holding the string, whose id survives insertion.
#[verifier::rlimit(100)]
pub fn aho_corasick(dict: &[&str], t: &str) -> (res: Vec<Vec<usize>>)
    requires
        forall|p: int|
            0 <= p < dict@.len() ==> 1 <= (#[trigger] dict@[p]).spec_bytes().len() <= usize::MAX,
    ensures
        res@.len() == dict@.len(),
        forall|p: int, k1: int, k2: int|
            0 <= p < res@.len() && 0 <= k1 < k2 < res@[p]@.len() ==> res@[p]@[k1] < res@[p]@[k2],
        forall|p: int, x: int|
            0 <= p < dict@.len() ==> (#[trigger] seq_contains_val(res@[p]@, x) <==> (occurs_at(
                t.spec_bytes(),
                dict@[p].spec_bytes(),
                x,
            ) && ac_last_holder(dict@, p))),
        forall|p: int, k: int|
            0 <= p < res@.len() && 0 <= k < res@[p]@.len() ==> (#[trigger] res@[p]@[k])
                + dict@[p].spec_bytes().len() <= t.spec_bytes().len(),
        t.spec_bytes().len() == 0 ==> forall|p: int|
            0 <= p < res@.len() ==> (#[trigger] res@[p])@.len() == 0,
{
    broadcast use vstd::laws_cmp::group_laws_cmp;

    let npats = dict.len();
    let mut res: Vec<Vec<usize>> = Vec::new();
    let mut pp: usize = 0;
    while pp < npats
        invariant
            pp <= npats,
            res@.len() == pp,
            forall|p: int| 0 <= p < pp ==> (#[trigger] res@[p])@.len() == 0,
        decreases npats - pp,
    {
        res.push(Vec::new());
        pp += 1;
    }
    let mut trie = TrieAhoCorasick::new();
    let mut idx: usize = 0;
    while idx < npats
        invariant
            idx <= npats,
            npats == dict@.len(),
            forall|p: int|
                0 <= p < dict@.len() ==> 1 <= (#[trigger] dict@[p]).spec_bytes().len()
                    <= usize::MAX,
            trie_wf(trie.arr@, trie.labels@, idx as int),
            trie.sz == trie.arr@.len(),
            forall|w: int|
                0 <= w < trie.arr@.len() ==> ((#[trigger] trie.arr@[w].pat_num) matches Some(p)
                    ==> 0 <= (p as int) < idx && trie.labels@[w] == dict@[p as int].spec_bytes()
                    && last_upto(dict@, p as int, idx as int)),
            forall|p: int|
                0 <= p < idx && #[trigger] last_upto(dict@, p, idx as int) ==> exists|w: int|
                    1 <= w < trie.arr@.len() && trie.labels@[w] == dict@[p].spec_bytes()
                        && trie.arr@[w].pat_num == Some(p as usize),
        decreases npats - idx,
    {
        proof {
            assert(trie_wf(trie.arr@, trie.labels@, idx + 1));
        }
        let ghost pre = trie;
        trie.insert(dict[idx], idx, Ghost(idx + 1 as int));
        proof {
            let s_bytes = dict@[idx as int].spec_bytes();
            assert forall|w: int|
                0 <= w < trie.arr@.len() implies ((#[trigger] trie.arr@[w].pat_num)
                matches Some(p) ==> 0 <= (p as int) < idx + 1 && trie.labels@[w] == dict@[p as int].spec_bytes() && last_upto(dict@, p as int, idx + 1)) by {
                match trie.arr@[w].pat_num {
                    Some(p) => {
                        if trie.labels@[w] == s_bytes {
                            assert(trie.arr@[w].pat_num == Some(idx));
                            assert(last_upto(dict@, idx as int, idx + 1));
                        } else {
                            assert(w < pre.arr@.len());
                            assert(trie.arr@[w].pat_num == pre.arr@[w].pat_num);
                            assert(trie.labels@[w] == pre.labels@[w]);
                            assert(last_upto(dict@, p as int, idx as int));
                            assert(dict@[idx as int].spec_bytes() != dict@[
                                p as int].spec_bytes());
                            assert(last_upto(dict@, p as int, idx + 1));
                        }
                    },
                    None => {},
                }
            }
            assert forall|p: int|
                0 <= p < idx + 1 && #[trigger] last_upto(dict@, p, idx + 1) implies exists|w: int|
                1 <= w < trie.arr@.len() && trie.labels@[w] == dict@[p].spec_bytes()
                    && trie.arr@[w].pat_num == Some(p as usize) by {
                assert(forall|q: int|
                    p < q < idx + 1 ==> (#[trigger] dict@[q]).spec_bytes()
                        != dict@[p].spec_bytes());
                if p == idx {
                    let w = choose|w: int|
                        0 <= w < trie.arr@.len() && trie.labels@[w] == s_bytes;
                    assert(trie.labels@[0].len() == 0);
                    assert(w >= 1);
                    assert(trie.arr@[w].pat_num == Some(idx));
                } else {
                    assert(dict@[idx as int].spec_bytes() != dict@[p].spec_bytes());
                    assert(last_upto(dict@, p, idx as int));
                    let w = choose|w: int|
                        1 <= w < pre.arr@.len() && pre.labels@[w] == dict@[p].spec_bytes()
                            && pre.arr@[w].pat_num == Some(p as usize);
                    assert(trie.labels@[w] == pre.labels@[w]);
                    assert(trie.labels@[w] != s_bytes);
                    assert(trie.arr@[w].pat_num == Some(p as usize));
                }
            }
        }
        idx += 1;
    }
    proof {
        assert(dict_pat_facts(trie.arr@, trie.labels@, dict@)) by {
            assert forall|p: int|
                0 <= p < dict@.len() && #[trigger] ac_last_holder(dict@, p) implies exists|w: int|
                1 <= w < trie.arr@.len() && (#[trigger] trie.labels@[w]) == dict@[p].spec_bytes()
                    && trie.arr@[w].pat_num == Some(p as usize) by {
                assert(last_upto(dict@, p, idx as int));
            }
        }
    }
    let ghost labels = trie.labels@;
    let ghost arr_built = trie.arr@;
    // Resolve suffix and output links level by level: a node's link is
    // computed from the already-resolved links of strictly shallower nodes.
    let total = trie.arr.len();
    let mut maxd: usize = 0;
    let mut sc: usize = 0;
    while sc < total
        invariant
            sc <= total,
            total == trie.arr@.len(),
            trie_wf(trie.arr@, trie.labels@, npats as int),
            dict_pat_facts(trie.arr@, trie.labels@, dict@),
            forall|v: int| 0 <= v < sc ==> (#[trigger] trie.arr@[v].depth) <= maxd,
            maxd < total || total == 0,
        decreases total - sc,
    {
        if trie.arr[sc].depth > maxd {
            proof {
                assert(trie.labels@[sc as int].len() <= sc);
            }
            maxd = trie.arr[sc].depth;
        }
        sc += 1;
    }
    let mut d: usize = 1;
    while d <= maxd
        invariant
            1 <= d <= maxd + 1,
            maxd < total || total == 0,
            npats == dict@.len(),
            total == trie.arr@.len(),
            trie_wf(trie.arr@, trie.labels@, npats as int),
            dict_pat_facts(trie.arr@, trie.labels@, dict@),
            trie.labels@ == labels,
            trie.arr@.len() == arr_built.len(),
            forall|v: int|
                0 <= v < trie.arr@.len() ==> (#[trigger] trie.arr@[v]).children == arr_built[v].children && trie.arr@[v].pat_num == arr_built[v].pat_num && trie.arr@[v].parent
                    == arr_built[v].parent && trie.arr@[v].pch == arr_built[v].pch
                    && trie.arr@[v].depth == arr_built[v].depth,
            forall|v: int| 0 <= v < total ==> (#[trigger] trie.arr@[v].depth) <= maxd,
            resolved_below(trie.arr@, trie.labels@, d as int),
        decreases maxd + 1 - d,
    {
        let mut v: usize = 0;
        while v < total
            invariant
                v <= total,
                1 <= d,
                npats == dict@.len(),
                total == trie.arr@.len(),
                trie_wf(trie.arr@, trie.labels@, npats as int),
                dict_pat_facts(trie.arr@, trie.labels@, dict@),
                trie.labels@ == labels,
                trie.arr@.len() == arr_built.len(),
                forall|w: int|
                    0 <= w < trie.arr@.len() ==> (#[trigger] trie.arr@[w]).children == arr_built[w].children && trie.arr@[w].pat_num == arr_built[w].pat_num
                        && trie.arr@[w].parent == arr_built[w].parent && trie.arr@[w].pch
                        == arr_built[w].pch && trie.arr@[w].depth == arr_built[w].depth,
                forall|w: int| 0 <= w < total ==> (#[trigger] trie.arr@[w].depth) <= maxd,
                resolved_below(trie.arr@, trie.labels@, d as int),
                forall|w: int|
                    0 <= w < v && (#[trigger] trie.arr@[w].depth) == d && w >= 1 ==> link_correct(
                        trie.arr@,
                        trie.labels@,
                        w,
                    ) && good_correct(trie.arr@, trie.labels@, w),
            decreases total - v,
        {
            if v >= 1 && trie.arr[v].depth == d {
                let ghost a0 = trie.arr@;
                resolve_node(&mut trie, v, Ghost(npats as int), Ghost(d as int));
                proof {
                    lemma_dpf_frame(a0, trie.arr@, trie.labels@, dict@);
                }
            }
            v += 1;
        }
        proof {
            assert forall|w: int|
                1 <= w < trie.arr@.len() && (#[trigger] trie.labels@[w]).len() < d + 1
                    implies link_correct(trie.arr@, trie.labels@, w) && good_correct(
                trie.arr@,
                trie.labels@,
                w,
            ) by {
                if trie.labels@[w].len() == d {
                    assert(trie.arr@[w].depth == d);
                }
            }
        }
        d += 1;
    }
    proof {
        assert(d == maxd + 1);
        assert(resolved_below(trie.arr@, trie.labels@, maxd + 1));
        assert(all_correct(trie.arr@, trie.labels@)) by {
            assert forall|w: int|
                1 <= w < trie.arr@.len() implies #[trigger] link_correct(
                trie.arr@,
                trie.labels@,
                w,
            ) && good_correct(trie.arr@, trie.labels@, w) by {
                assert(trie.arr@[w].depth <= maxd);
                assert(trie.arr@[w].depth == trie.labels@[w].len());
                assert(trie.labels@[w].len() < maxd + 1);
            }
        }
    }
    // Streaming scan: follow children where possible, suffix links
    // otherwise; report the pattern of every terminal reached directly or
    // through the output-link chain.
    let tb = t.as_bytes_vec();
    let tn = tb.len();
    let mut v: usize = 0;
    let mut i: usize = 0;
    proof {
        assert(tb@.subrange(0, 0) =~= Seq::<u8>::empty());
    }
    while i < tn
        invariant
            i <= tn,
            tn == tb@.len(),
            tb@ == t.spec_bytes(),
            npats == dict@.len(),
            forall|p: int|
                0 <= p < dict@.len() ==> 1 <= (#[trigger] dict@[p]).spec_bytes().len()
                    <= usize::MAX,
            trie_wf(trie.arr@, trie.labels@, npats as int),
            dict_pat_facts(trie.arr@, trie.labels@, dict@),
            all_correct(trie.arr@, trie.labels@),
            state_ok(trie.arr@, trie.labels@, tb@.subrange(0, i as int), v as int),
            res@.len() == npats,
            forall|p: int, k1: int, k2: int|
                0 <= p < res@.len() && 0 <= k1 < k2 < res@[p]@.len() ==> res@[p]@[k1]
                    < res@[p]@[k2],
            forall|p: int, k: int|
                0 <= p < res@.len() && 0 <= k < res@[p]@.len() ==> (#[trigger] res@[p]@[k])
                    + dict@[p].spec_bytes().len() <= i,
            forall|p: int, x: int|
                0 <= p < npats ==> (#[trigger] seq_contains_val(res@[p]@, x) <==> ac_across(
                    dict@,
                    tb@,
                    i as int,
                    p,
                    x,
                )),
        decreases tn - i,
    {
        let ghost tw = tb@.subrange(0, i as int);
        let ghost tw2 = tb@.subrange(0, (i + 1) as int);
        let ch = tb[i];
        proof {
            assert(tw2 =~= tw.push(ch));
        }
        while v != 0 && !trie.arr[v].children.contains_key(&ch)
            invariant
                0 <= v < trie.arr@.len(),
                trie_wf(trie.arr@, trie.labels@, npats as int),
                all_correct(trie.arr@, trie.labels@),
                is_suffix_of(trie.labels@[v as int], tw),
                forall|w: int|
                    1 <= w < trie.arr@.len() && is_suffix_of(#[trigger] trie.labels@[w], tw)
                        && trie.labels@[w].len() > trie.labels@[v as int].len()
                        ==> !trie.arr@[w].children@.contains_key(ch),
            decreases trie.labels@[v as int].len(),
        {
            let ghost vold = v as int;
            let nl = trie.arr[v].link;
            proof {
                let la = trie.labels@;
                assert forall|w: int|
                    1 <= w < trie.arr@.len() && is_suffix_of(#[trigger] la[w], tw) && la[w].len()
                        > la[nl as int].len() implies !trie.arr@[w].children@.contains_key(
                    ch,
                ) by {
                    if la[w].len() <= la[vold].len() {
                        if la[w].len() == la[vold].len() {
                            lemma_suffix_equal_len(la[w], la[vold], tw);
                            assert(w == vold);
                        } else {
                            lemma_suffix_shorter(la[w], la[vold], tw);
                            assert(all_correct(trie.arr@, trie.labels@));
                            assert(1 <= vold < trie.arr@.len());
                            assert(link_correct(trie.arr@, trie.labels@, vold));
                            assert(la[w].len() <= la[trie.arr@[vold].link as int].len());
                        }
                    }
                }
            }
            v = nl;
        }
        let ghost la = trie.labels@;
        let ghost vstop = v as int;
        if trie.arr[v].children.contains_key(&ch) {
            let nv = *trie.arr[v].children.get(&ch).unwrap();
            proof {
                assert(trie.arr@[vstop].children@.contains_key(ch));
            }
            v = nv;
            proof {
                assert(la[v as int] == la[vstop].push(ch));
                lemma_suffix_push(la[vstop], tw, ch);
                assert(state_ok(trie.arr@, la, tw2, v as int)) by {
                    assert forall|w: int|
                        1 <= w < trie.arr@.len() && is_suffix_of(#[trigger] la[w], tw2)
                            implies la[w].len() <= la[v as int].len() by {
                        let u = trie.arr@[w].parent as int;
                        assert(la[u] == la[w].drop_last());
                        lemma_suffix_drop_last(la[w], tw2);
                        assert(tw2.drop_last() =~= tw);
                        assert(la[w].last() == tw2.last());
                        assert(trie.arr@[w].pch == ch);
                        if u == 0 {
                            assert(la[u].len() <= la[vstop].len());
                        } else {
                            if la[u].len() > la[vstop].len() {
                                assert(trie.arr@[u].children@.contains_key(ch));
                                assert(false);
                            }
                        }
                    }
                }
            }
        } else {
            proof {
                assert(v == 0);
            }
            v = 0;
            proof {
                assert(state_ok(trie.arr@, la, tw2, 0)) by {
                    assert forall|w: int|
                        1 <= w < trie.arr@.len() && is_suffix_of(#[trigger] la[w], tw2)
                            implies la[w].len() <= la[0].len() by {
                        let u = trie.arr@[w].parent as int;
                        assert(la[u] == la[w].drop_last());
                        lemma_suffix_drop_last(la[w], tw2);
                        assert(tw2.drop_last() =~= tw);
                        assert(la[w].last() == tw2.last());
                        assert(trie.arr@[w].pch == ch);
                        if u == 0 {
                            assert(trie.arr@[0].children@.contains_key(ch));
                            assert(false);
                        } else {
                            assert(la[u].len() > la[0].len());
                            assert(trie.arr@[u].children@.contains_key(ch));
                            assert(false);
                        }
                    }
                }
            }
        }
        let ghost e = (i + 1) as int;
        proof {
            assert forall|p: int, x: int|
                0 <= p < npats implies (#[trigger] seq_contains_val(res@[p]@, x) <==> (ac_across(
                dict@,
                tb@,
                i as int,
                p,
                x,
            ) || (x == e - dict@[p].spec_bytes().len() && ac_term(dict@, tw2, p) && dict@[p].spec_bytes().len() > la[v as int].len()))) by {
                if ac_term(dict@, tw2, p) {
                    lemma_no_deep_term(trie.arr@, la, dict@, tw2, v as int, p);
                }
            }
        }
        let vpat = trie.arr[v].pat_num;
        if let Some(p) = vpat {
            let plen = dict[p].len();
            let ghost res_pre = res@;
            proof {
                assert(la[v as int] == dict@[p as int].spec_bytes());
                assert(plen == dict@[p as int].spec_bytes().len());
                assert(is_suffix_of(la[v as int], tw2));
                assert(plen <= e);
                assert(ac_last_holder(dict@, p as int));
                assert(ac_term(dict@, tw2, p as int));
                if res@[p as int]@.len() > 0 {
                    let x0 = res@[p as int]@.last() as int;
                    assert(res@[p as int]@[res@[p as int]@.len() - 1] == res@[p as int]@.last());
                    assert(seq_contains_val(res@[p as int]@, x0));
                    assert(ac_across(dict@, tb@, i as int, p as int, x0));
                    assert(x0 + plen <= i);
                }
            }
            let start = i + 1 - plen;
            record_hit(&mut res, p, start);
            proof {
                let thr_new: int = spec_good_len(trie.arr@, la, v as int);
                assert(thr_new < la[v as int].len());
                assert forall|p2: int, x: int|
                    0 <= p2 < npats implies (#[trigger] seq_contains_val(res@[p2]@, x) <==> (
                ac_across(dict@, tb@, i as int, p2, x) || (x == e - dict@[p2].spec_bytes().len() && ac_term(dict@, tw2, p2) && dict@[p2].spec_bytes().len()
                    > thr_new))) by {
                    if p2 == p as int {
                        lemma_contains_push(res_pre[p2]@, (e - plen) as usize, x);
                        assert(res@[p2]@ == res_pre[p2]@.push((e - plen) as usize));
                    } else {
                        assert(res@[p2] == res_pre[p2]);
                    }
                    if x == e - dict@[p2].spec_bytes().len() && ac_term(dict@, tw2, p2) {
                        lemma_no_deep_term(trie.arr@, la, dict@, tw2, v as int, p2);
                        if v != 0 {
                            assert(all_correct(trie.arr@, trie.labels@));
                            assert(link_correct(trie.arr@, trie.labels@, v as int));
                            assert(good_correct(trie.arr@, trie.labels@, v as int));
                        }
                        lemma_step_threshold(trie.arr@, la, dict@, tw2, v as int, p2);
                    }
                }
            }
        } else {
            proof {
                let thr_new: int = spec_good_len(trie.arr@, la, v as int);
                assert(thr_new <= la[v as int].len());
                assert forall|p2: int, x: int|
                    0 <= p2 < npats implies (#[trigger] seq_contains_val(res@[p2]@, x) <==> (
                ac_across(dict@, tb@, i as int, p2, x) || (x == e - dict@[p2].spec_bytes().len() && ac_term(dict@, tw2, p2) && dict@[p2].spec_bytes().len()
                    > thr_new))) by {
                    if x == e - dict@[p2].spec_bytes().len() && ac_term(dict@, tw2, p2) {
                        lemma_no_deep_term(trie.arr@, la, dict@, tw2, v as int, p2);
                        if v != 0 {
                            assert(all_correct(trie.arr@, trie.labels@));
                            assert(link_correct(trie.arr@, trie.labels@, v as int));
                            assert(good_correct(trie.arr@, trie.labels@, v as int));
                        }
                        lemma_step_threshold(trie.arr@, la, dict@, tw2, v as int, p2);
                    }
                }
            }
        }
        let mut g = trie.arr[v].good_link;
        proof {
            match g {
                Some(gx) => {
                    assert(is_suffix_of(la[gx as int], la[v as int]));
                    lemma_suffix_trans(la[gx as int], la[v as int], tw2);
                },
                None => {},
            }
        }
        while g.is_some()
            invariant
                i < tn,
                tn == tb@.len(),
                tb@ == t.spec_bytes(),
                e == i + 1,
                tw2 == tb@.subrange(0, e),
                npats == dict@.len(),
                la == trie.labels@,
                forall|p: int|
                    0 <= p < dict@.len() ==> 1 <= (#[trigger] dict@[p]).spec_bytes().len()
                        <= usize::MAX,
                trie_wf(trie.arr@, trie.labels@, npats as int),
                dict_pat_facts(trie.arr@, trie.labels@, dict@),
                all_correct(trie.arr@, trie.labels@),
                (g matches Some(x) ==> 0 <= (x as int) < trie.arr@.len() && is_suffix_of(
                    la[x as int],
                    tw2,
                ) && trie.arr@[x as int].pat_num is Some),
                res@.len() == npats,
                forall|p: int, k1: int, k2: int|
                    0 <= p < res@.len() && 0 <= k1 < k2 < res@[p]@.len() ==> res@[p]@[k1]
                        < res@[p]@[k2],
                forall|p: int, k: int|
                    0 <= p < res@.len() && 0 <= k < res@[p]@.len() ==> (#[trigger] res@[p]@[k])
                        + dict@[p].spec_bytes().len() <= i + 1,
                forall|p: int, x: int|
                    0 <= p < npats ==> (#[trigger] seq_contains_val(res@[p]@, x) <==> (ac_across(
                        dict@,
                        tb@,
                        i as int,
                        p,
                        x,
                    ) || (x == e - dict@[p].spec_bytes().len() && ac_term(dict@, tw2, p)
                        && dict@[p].spec_bytes().len() > spec_thr(la, g)))),
            decreases spec_gdec(trie.labels@, g),
        {
            let gv = match g {
                Some(x) => x,
                None => 0,
            };
            let p = match trie.arr[gv].pat_num {
                Some(p) => p,
                None => 0,
            };
            let ghost res_pre = res@;
            proof {
                assert(trie.arr@[gv as int].pat_num == Some(p));
                assert(la[gv as int] == dict@[p as int].spec_bytes());
                assert(ac_last_holder(dict@, p as int));
                assert(ac_term(dict@, tw2, p as int));
                assert(la[gv as int].len() <= e);
                if res@[p as int]@.len() > 0 {
                    let x0 = res@[p as int]@.last() as int;
                    assert(res@[p as int]@[res@[p as int]@.len() - 1] == res@[p as int]@.last());
                    assert(seq_contains_val(res@[p as int]@, x0));
                    assert(ac_across(dict@, tb@, i as int, p as int, x0));
                    assert(x0 + la[gv as int].len() <= i);
                }
            }
            let plen = dict[p].len();
            let start = i + 1 - plen;
            record_hit(&mut res, p, start);
            let gnext = trie.arr[gv].good_link;
            proof {
                let thr_new: int = spec_good_len(trie.arr@, la, gv as int);
                assert(thr_new < la[gv as int].len());
                match gnext {
                    Some(g2) => {
                        lemma_suffix_trans(la[g2 as int], la[gv as int], tw2);
                    },
                    None => {},
                }
                assert forall|p2: int, x: int|
                    0 <= p2 < npats implies (#[trigger] seq_contains_val(res@[p2]@, x) <==> (
                ac_across(dict@, tb@, i as int, p2, x) || (x == e - dict@[p2].spec_bytes().len() && ac_term(dict@, tw2, p2) && dict@[p2].spec_bytes().len()
                    > thr_new))) by {
                    if p2 == p as int {
                        lemma_contains_push(res_pre[p2]@, (e - la[gv as int].len()) as usize, x);
                        assert(res@[p2]@ == res_pre[p2]@.push((e - la[gv as int].len()) as usize));
                    } else {
                        assert(res@[p2] == res_pre[p2]);
                    }
                    if x == e - dict@[p2].spec_bytes().len() && ac_term(dict@, tw2, p2) && dict@[p2].spec_bytes().len() <= la[gv as int].len() {
                        assert(dict@[p2].spec_bytes().len() >= 1);
                        assert(la[gv as int].len() >= 1);
                        assert(gv != 0) by {
                            assert(la[0].len() == 0);
                        }
                        assert(all_correct(trie.arr@, trie.labels@));
                        assert(link_correct(trie.arr@, trie.labels@, gv as int));
                        assert(good_correct(trie.arr@, trie.labels@, gv as int));
                        lemma_step_threshold(trie.arr@, la, dict@, tw2, gv as int, p2);
                    }
                }
            }
            g = gnext;
        }
        proof {
            assert forall|p: int, x: int|
                0 <= p < npats implies (#[trigger] seq_contains_val(res@[p]@, x) <==> ac_across(
                dict@,
                tb@,
                (i + 1) as int,
                p,
                x,
            )) by {
                let plen = dict@[p].spec_bytes().len() as int;
                if ac_across(dict@, tb@, (i + 1) as int, p, x) && x + plen == e {
                    lemma_occurs_iff_suffix(tb@, dict@[p].spec_bytes(), e);
                    assert(is_suffix_of(dict@[p].spec_bytes(), tb@.subrange(0, e)));
                }
                if x == e - plen && ac_term(dict@, tw2, p) {
                    lemma_occurs_iff_suffix(tb@, dict@[p].spec_bytes(), e);
                }
            }
        }
        i += 1;
    }
    proof {
        assert(tb@.subrange(0, tn as int) =~= tb@);
        assert forall|p: int, x: int|
            0 <= p < dict@.len() implies (#[trigger] seq_contains_val(res@[p]@, x) <==> (
        occurs_at(t.spec_bytes(), dict@[p].spec_bytes(), x) && ac_last_holder(dict@, p))) by {
            if occurs_at(tb@, dict@[p].spec_bytes(), x) {
                assert(x + dict@[p].spec_bytes().len() <= tn);
            }
        }
        assert forall|p: int, k: int|
            0 <= p < res@.len() && 0 <= k < res@[p]@.len() implies (#[trigger] res@[p]@[k])
                + dict@[p].spec_bytes().len() <= t.spec_bytes().len() by {
            assert(seq_contains_val(res@[p]@, res@[p]@[k] as int));
        }
        if t.spec_bytes().len() == 0 {
            assert forall|p: int| 0 <= p < res@.len() implies (#[trigger] res@[p])@.len()
                == 0 by {
                if res@[p]@.len() > 0 {
                    assert(seq_contains_val(res@[p]@, res@[p]@[0] as int));
                    assert(occurs_at(t.spec_bytes(), dict@[p].spec_bytes(), res@[p]@[0] as int));
                }
            }
        }
    }
    res
}

/// Membership in a list after a push: the old members plus the new one.
proof fn lemma_contains_push(s: Seq<usize>, v: usize, x: int)
    ensures
        seq_contains_val(s.push(v), x) <==> (seq_contains_val(s, x) || x == v),
{
    let sp = s.push(v);
    if seq_contains_val(sp, x) {
        let k = choose|k: int| 0 <= k < sp.len() && sp[k] == x;
        if k < s.len() {
            assert(s[k] == x);
        }
    }
    if seq_contains_val(s, x) {
        let k = choose|k: int| 0 <= k < s.len() && s[k] == x;
        assert(sp[k] == x);
    }
    if x == v {
        assert(sp[sp.len() - 1] == x);
    }
}

/// Any strict suffix node of the freshly linked node is either the node
/// itself or hangs below a chain position no deeper than the stop point.
proof fn lemma_link_step(
    arr: Seq<VertexAhoCorasick>,
    la: Seq<Seq<u8>>,
    npats: int,
    parent: int,
    pch: u8,
    v: int,
    nl: int,
    w: int,
)
    requires
        trie_wf(arr, la, npats),
        1 <= parent < arr.len(),
        1 <= v < arr.len(),
        la[v] == la[parent].push(pch),
        0 <= nl < arr.len(),
        is_suffix_of(la[nl], la[parent]),
        la[nl].len() < la[parent].len(),
        forall|w2: int|
            1 <= w2 < arr.len() && is_suffix_of(#[trigger] la[w2], la[parent]) && la[nl].len()
                < la[w2].len() && la[w2].len() < la[parent].len()
                ==> !arr[w2].children@.contains_key(pch),
        arr[parent].children@.contains_key(pch),
        arr[parent].children@[pch] == v,
        1 <= w < arr.len(),
        is_suffix_of(la[w], la[v]),
        la[w].len() < la[v].len(),
    ensures
        w == v || {
            let u = arr[w].parent as int;
            &&& la[u].len() <= la[nl].len()
            &&& arr[u].children@.contains_key(pch)
            &&& arr[u].children@[pch] == w
            &&& la[w].len() <= la[nl].len() + 1
            &&& (la[u].len() == 0 ==> u == 0)
        },
{
    let u = arr[w].parent as int;
    assert(la[u] == la[w].drop_last());
    lemma_suffix_drop_last(la[w], la[v]);
    assert(la[v].drop_last() =~= la[parent]);
    assert(la[w].last() == la[v].last());
    assert(arr[w].pch == pch);
    assert(arr[u].children@.contains_key(pch) && arr[u].children@[pch] == w);
    if la[u].len() > la[nl].len() {
        if la[u].len() < la[parent].len() {
            assert(!arr[u].children@.contains_key(pch));
            assert(false);
        } else {
            lemma_suffix_equal_len(la[u], la[parent], la[parent]);
            assert(u == parent);
            assert(w == v);
        }
    }
    if w != v && la[u].len() == 0 {
        assert(la[u] =~= la[0]);
        if u != 0 {
            assert(la[u] != la[0]);
            assert(false);
        }
    }
}

/// The freshly assigned output link is the deepest terminal strict suffix.
proof fn lemma_good_step(
    arr: Seq<VertexAhoCorasick>,
    la: Seq<Seq<u8>>,
    npats: int,
    v: int,
    lk: int,
    w: int,
)
    requires
        trie_wf(arr, la, npats),
        1 <= v < arr.len(),
        1 <= lk < arr.len(),
        arr[v].link == lk,
        is_suffix_of(la[lk], la[v]),
        la[lk].len() < la[v].len(),
        good_correct(arr, la, lk),
        arr[v].good_link == (if arr[lk].pat_num is Some {
            Some(lk as usize)
        } else {
            arr[lk].good_link
        }),
        1 <= w < arr.len(),
        is_suffix_of(la[w], la[v]),
        la[w].len() < la[v].len(),
        la[w].len() <= la[lk].len(),
    ensures
        arr[w].pat_num is Some ==> la[w].len() <= spec_good_len(arr, la, v),
        arr[v].good_link is None ==> arr[w].pat_num is None,
{
    if la[w].len() == la[lk].len() {
        lemma_suffix_equal_len(la[w], la[lk], la[v]);
        assert(w == lk);
    } else {
        lemma_suffix_shorter(la[w], la[lk], la[v]);
        match arr[lk].good_link {
            Some(g2) => {
                if arr[w].pat_num is Some {
                    assert(la[w].len() <= la[g2 as int].len());
                    assert(la[g2 as int].len() < la[lk].len());
                }
            },
            None => {
                assert(arr[w].pat_num is None);
            },
        }
    }
}

/// Resolves the suffix link and output link of one node from the
/// already-resolved links of all strictly shallower nodes.
#[verifier::rlimit(100)]
fn resolve_node(trie: &mut TrieAhoCorasick, v: usize, Ghost(npats): Ghost<int>, Ghost(d): Ghost<int>)
    requires
        trie_wf(old(trie).arr@, old(trie).labels@, npats),
        1 <= (v as int) < old(trie).arr@.len(),
        old(trie).labels@[v as int].len() == d,
        d >= 1,
        resolved_below(old(trie).arr@, old(trie).labels@, d),
    ensures
        trie_wf(final(trie).arr@, final(trie).labels@, npats),
        final(trie).labels@ == old(trie).labels@,
        final(trie).sz == old(trie).sz,
        final(trie).arr@.len() == old(trie).arr@.len(),
        forall|w: int|
            0 <= w < old(trie).arr@.len() ==> (#[trigger] final(trie).arr@[w]).children == old(
                trie,
            ).arr@[w].children && final(trie).arr@[w].pat_num == old(trie).arr@[w].pat_num
                && final(trie).arr@[w].parent == old(trie).arr@[w].parent
                && final(trie).arr@[w].pch == old(trie).arr@[w].pch && final(trie).arr@[w].depth
                == old(trie).arr@[w].depth,
        forall|w: int|
            1 <= w < old(trie).arr@.len() && w != v ==> (#[trigger] final(trie).arr@[w]).link
                == old(trie).arr@[w].link && final(trie).arr@[w].good_link == old(
                trie,
            ).arr@[w].good_link,
        link_correct(final(trie).arr@, final(trie).labels@, v as int),
        good_correct(final(trie).arr@, final(trie).labels@, v as int),
        resolved_below(final(trie).arr@, final(trie).labels@, d),
        forall|w: int|
            1 <= w < old(trie).arr@.len() && w != v && link_correct(
                old(trie).arr@,
                old(trie).labels@,
                w,
            ) && good_correct(old(trie).arr@, old(trie).labels@, w) ==> #[trigger] link_correct(
                final(trie).arr@,
                final(trie).labels@,
                w,
            ) && good_correct(final(trie).arr@, final(trie).labels@, w),
{
    broadcast use vstd::laws_cmp::group_laws_cmp;

    let ghost la = trie.labels@;
    let parent = trie.arr[v].parent;
    if parent == 0 {
        proof {
            lemma_depth1_correct(trie.arr@, la, npats, v as int);
        }
    } else {
        resolve_node_deep(trie, v, Ghost(npats), Ghost(d));
    }
}

#[verifier::rlimit(100)]
fn resolve_node_deep(trie: &mut TrieAhoCorasick, v: usize, Ghost(npats): Ghost<int>, Ghost(d): Ghost<int>)
    requires
        old(trie).arr@[v as int].parent != 0,
        trie_wf(old(trie).arr@, old(trie).labels@, npats),
        1 <= (v as int) < old(trie).arr@.len(),
        old(trie).labels@[v as int].len() == d,
        d >= 1,
        resolved_below(old(trie).arr@, old(trie).labels@, d),
    ensures
        trie_wf(final(trie).arr@, final(trie).labels@, npats),
        final(trie).labels@ == old(trie).labels@,
        final(trie).sz == old(trie).sz,
        final(trie).arr@.len() == old(trie).arr@.len(),
        forall|w: int|
            0 <= w < old(trie).arr@.len() ==> (#[trigger] final(trie).arr@[w]).children == old(
                trie,
            ).arr@[w].children && final(trie).arr@[w].pat_num == old(trie).arr@[w].pat_num
                && final(trie).arr@[w].parent == old(trie).arr@[w].parent
                && final(trie).arr@[w].pch == old(trie).arr@[w].pch && final(trie).arr@[w].depth
                == old(trie).arr@[w].depth,
        forall|w: int|
            1 <= w < old(trie).arr@.len() && w != v ==> (#[trigger] final(trie).arr@[w]).link
                == old(trie).arr@[w].link && final(trie).arr@[w].good_link == old(
                trie,
            ).arr@[w].good_link,
        link_correct(final(trie).arr@, final(trie).labels@, v as int),
        good_correct(final(trie).arr@, final(trie).labels@, v as int),
        resolved_below(final(trie).arr@, final(trie).labels@, d),
        forall|w: int|
            1 <= w < old(trie).arr@.len() && w != v && link_correct(
                old(trie).arr@,
                old(trie).labels@,
                w,
            ) && good_correct(old(trie).arr@, old(trie).labels@, w) ==> #[trigger] link_correct(
                final(trie).arr@,
                final(trie).labels@,
                w,
            ) && good_correct(final(trie).arr@, final(trie).labels@, w),
{
    broadcast use vstd::laws_cmp::group_laws_cmp;

    let ghost la = trie.labels@;
    let parent = trie.arr[v].parent;
    {
        let pch = trie.arr[v].pch;
        let mut nl = trie.arr[parent].link;
        proof {
            let arr = trie.arr@;
            assert(la[parent as int] == la[v as int].drop_last());
            assert(la[parent as int].len() == d - 1);
            assert(is_suffix_of(la[nl as int], la[parent as int]));
            assert(la[nl as int].len() < la[parent as int].len());
            assert(link_correct(arr, la, parent as int));
            assert forall|w: int|
                1 <= w < arr.len() && is_suffix_of(#[trigger] la[w], la[parent as int]) && la[
                nl as int].len() < la[w].len() && la[w].len() < la[parent as int].len()
                implies !arr[w].children@.contains_key(pch) by {
                assert(la[w].len() <= la[arr[parent as int].link as int].len());
            }
        }
        while nl != 0 && !trie.arr[nl].children.contains_key(&pch)
            invariant
                trie_wf(trie.arr@, trie.labels@, npats),
                trie.labels@ == la,
                1 <= (v as int) < trie.arr@.len(),
                1 <= (parent as int) < trie.arr@.len(),
                parent == trie.arr@[v as int].parent,
                pch == trie.arr@[v as int].pch,
                la[parent as int].len() == d - 1,
                d >= 1,
                resolved_below(trie.arr@, la, d),
                (nl as int) < trie.arr@.len(),
                is_suffix_of(la[nl as int], la[parent as int]),
                la[nl as int].len() < la[parent as int].len(),
                forall|w: int|
                    1 <= w < trie.arr@.len() && is_suffix_of(#[trigger] la[w], la[parent as int])
                        && la[nl as int].len() < la[w].len() && la[w].len() < la[parent as int].len() ==> !trie.arr@[w].children@.contains_key(pch),
            decreases la[nl as int].len(),
        {
            let ghost nold = nl as int;
            let nl2 = trie.arr[nl].link;
            proof {
                let arr = trie.arr@;
                assert(nold >= 1);
                assert(is_suffix_of(la[nl2 as int], la[nold]));
                lemma_suffix_trans(la[nl2 as int], la[nold], la[parent as int]);
                assert(link_correct(arr, la, nold)) by {
                    assert(la[nold].len() < d);
                }
                assert forall|w: int|
                    1 <= w < arr.len() && is_suffix_of(#[trigger] la[w], la[parent as int]) && la[
                    nl2 as int].len() < la[w].len() && la[w].len() < la[parent as int].len()
                    implies !arr[w].children@.contains_key(pch) by {
                    if la[w].len() <= la[nold].len() {
                        if la[w].len() == la[nold].len() {
                            lemma_suffix_equal_len(la[w], la[nold], la[parent as int]);
                            assert(w == nold);
                        } else {
                            lemma_suffix_shorter(la[w], la[nold], la[parent as int]);
                            assert(la[w].len() <= la[arr[nold].link as int].len());
                        }
                    }
                }
            }
            nl = nl2;
        }
        resolve_finish(trie, v, nl, Ghost(npats), Ghost(d));
    }
}

/// Commits the resolved links once the chain walk has stopped: either the
/// stopping node carries the edge byte, or no suffix node does.
#[verifier::rlimit(100)]
#[verifier::spinoff_prover]
fn resolve_finish(
    trie: &mut TrieAhoCorasick,
    v: usize,
    nl: usize,
    Ghost(npats): Ghost<int>,
    Ghost(d): Ghost<int>,
)
    requires
        trie_wf(old(trie).arr@, old(trie).labels@, npats),
        1 <= (v as int) < old(trie).arr@.len(),
        old(trie).labels@[v as int].len() == d,
        d >= 1,
        resolved_below(old(trie).arr@, old(trie).labels@, d),
        1 <= (old(trie).arr@[v as int].parent as int) < old(trie).arr@.len(),
        old(trie).labels@[old(trie).arr@[v as int].parent as int].len() == d - 1,
        (nl as int) < old(trie).arr@.len(),
        is_suffix_of(
            old(trie).labels@[nl as int],
            old(trie).labels@[old(trie).arr@[v as int].parent as int],
        ),
        old(trie).labels@[nl as int].len() < old(trie).labels@[old(
            trie,
        ).arr@[v as int].parent as int].len(),
        forall|w: int|
            1 <= w < old(trie).arr@.len() && is_suffix_of(
                #[trigger] old(trie).labels@[w],
                old(trie).labels@[old(trie).arr@[v as int].parent as int],
            ) && old(trie).labels@[nl as int].len() < old(trie).labels@[w].len() && old(
                trie,
            ).labels@[w].len() < old(trie).labels@[old(trie).arr@[v as int].parent as int].len()
                ==> !old(trie).arr@[w].children@.contains_key(old(trie).arr@[v as int].pch),
        nl == 0 || old(trie).arr@[nl as int].children@.contains_key(old(trie).arr@[v as int].pch),
    ensures
        trie_wf(final(trie).arr@, final(trie).labels@, npats),
        final(trie).labels@ == old(trie).labels@,
        final(trie).sz == old(trie).sz,
        final(trie).arr@.len() == old(trie).arr@.len(),
        forall|w: int|
            0 <= w < old(trie).arr@.len() ==> (#[trigger] final(trie).arr@[w]).children == old(
                trie,
            ).arr@[w].children && final(trie).arr@[w].pat_num == old(trie).arr@[w].pat_num
                && final(trie).arr@[w].parent == old(trie).arr@[w].parent
                && final(trie).arr@[w].pch == old(trie).arr@[w].pch && final(trie).arr@[w].depth
                == old(trie).arr@[w].depth,
        forall|w: int|
            1 <= w < old(trie).arr@.len() && w != v ==> (#[trigger] final(trie).arr@[w]).link
                == old(trie).arr@[w].link && final(trie).arr@[w].good_link == old(
                trie,
            ).arr@[w].good_link,
        link_correct(final(trie).arr@, final(trie).labels@, v as int),
        good_correct(final(trie).arr@, final(trie).labels@, v as int),
        resolved_below(final(trie).arr@, final(trie).labels@, d),
        forall|w: int|
            1 <= w < old(trie).arr@.len() && w != v && link_correct(
                old(trie).arr@,
                old(trie).labels@,
                w,
            ) && good_correct(old(trie).arr@, old(trie).labels@, w) ==> #[trigger] link_correct(
                final(trie).arr@,
                final(trie).labels@,
                w,
            ) && good_correct(final(trie).arr@, final(trie).labels@, w),
{
    broadcast use vstd::laws_cmp::group_laws_cmp;

    let ghost la = trie.labels@;
    let parent = trie.arr[v].parent;
    let pch = trie.arr[v].pch;
    let ghost arr0 = trie.arr@;
        if trie.arr[nl].children.contains_key(&pch) {
            let lk = *trie.arr[nl].children.get(&pch).unwrap();
            proof {
                assert(arr0[nl as int].children@.contains_key(pch));
                assert(la[lk as int] == la[nl as int].push(pch));
            }
            let good: Option<usize> = if trie.arr[lk].pat_num.is_some() {
                Some(lk)
            } else {
                trie.arr[lk].good_link
            };
            proof {
                assert(la[v as int] == la[parent as int].push(pch)) by {
                    assert(arr0[parent as int].children@.contains_key(pch));
                    assert(arr0[parent as int].children@[pch] == v);
                }
                lemma_suffix_push(la[nl as int], la[parent as int], pch);
                assert(is_suffix_of(la[lk as int], la[v as int]));
                assert(la[lk as int].len() < la[v as int].len());
                match good {
                    Some(g) => {
                        if g != lk {
                            lemma_suffix_trans(la[g as int], la[lk as int], la[v as int]);
                        }
                        assert(is_suffix_of(la[g as int], la[v as int]));
                        assert(la[g as int].len() < la[v as int].len());
                        assert(arr0[g as int].pat_num is Some);
                    },
                    None => {},
                }
            }
            let node = &mut trie.arr[v];
            node.link = lk;
            node.good_link = good;
            proof {
                resolve_write_proofs(arr0, trie.arr@, la, npats, v as int, d);
                lemma_resolved_node_correct(
                    trie.arr@,
                    la,
                    npats,
                    d,
                    v as int,
                    parent as int,
                    pch,
                    nl as int,
                    lk as int,
                );
            }
        } else {
            proof {
                assert(nl == 0);
                assert(la[v as int] == la[parent as int].push(pch)) by {
                    assert(trie.arr@[parent as int].children@.contains_key(pch));
                    assert(trie.arr@[parent as int].children@[pch] == v);
                }
                lemma_no_suffix_correct(trie.arr@, la, npats, v as int, parent as int, pch);
            }
        }
}

/// A depth-one node has no strict suffix node, so the zero link and empty
/// output link it was created with are already correct.
proof fn lemma_depth1_correct(arr: Seq<VertexAhoCorasick>, la: Seq<Seq<u8>>, npats: int, v: int)
    requires
        trie_wf(arr, la, npats),
        1 <= v < arr.len(),
        arr[v].parent == 0,
    ensures
        link_correct(arr, la, v),
        good_correct(arr, la, v),
{
    assert(la[v].len() == 1) by {
        assert(la[arr[v].parent as int] == la[v].drop_last());
        assert(la[0].len() == 0);
    }
    assert forall|w: int|
        1 <= w < arr.len() && is_suffix_of(#[trigger] la[w], la[v]) && la[w].len()
            < la[v].len() implies la[w].len() <= la[arr[v].link as int].len() && arr[w].pat_num
        is None by {
        assert(la[w].len() >= 1);
    }
    match arr[v].good_link {
        Some(g) => {
            assert(la[g as int].len() < 1);
            if g as int >= 1 {
                assert(la[g as int].len() >= 1);
            }
            assert(arr[g as int].pat_num is Some);
            assert(arr[0].pat_num is None);
            assert(false);
        },
        None => {},
    }
}

/// When even the root lacks the edge byte, the node has no strict suffix
/// node at all, so its zero link and empty output link are correct.
proof fn lemma_no_suffix_correct(
    arr: Seq<VertexAhoCorasick>,
    la: Seq<Seq<u8>>,
    npats: int,
    v: int,
    parent: int,
    pch: u8,
)
    requires
        trie_wf(arr, la, npats),
        1 <= v < arr.len(),
        1 <= parent < arr.len(),
        parent == arr[v].parent,
        pch == arr[v].pch,
        la[v] == la[parent].push(pch),
        arr[parent].children@.contains_key(pch),
        arr[parent].children@[pch] == v,
        forall|w2: int|
            1 <= w2 < arr.len() && is_suffix_of(#[trigger] la[w2], la[parent]) && la[0].len()
                < la[w2].len() && la[w2].len() < la[parent].len()
                ==> !arr[w2].children@.contains_key(pch),
        !arr[0].children@.contains_key(pch),
    ensures
        link_correct(arr, la, v),
        good_correct(arr, la, v),
{
    assert forall|w: int|
        1 <= w < arr.len() && is_suffix_of(#[trigger] la[w], la[v]) && la[w].len()
            < la[v].len() implies false by {
        lemma_link_step(arr, la, npats, parent, pch, v, 0, w);
        let u = arr[w].parent as int;
        assert(la[u].len() <= la[0].len());
        assert(u == 0);
        assert(!arr[0].children@.contains_key(pch));
    }
    assert(link_correct(arr, la, v));
    assert(good_correct(arr, la, v)) by {
        match arr[v].good_link {
            Some(g) => {
                assert(is_suffix_of(la[g as int], la[v]));
                assert(la[g as int].len() < la[v].len());
                if g as int == 0 {
                    assert(arr[0].pat_num is None);
                }
                assert(false);
            },
            None => {},
        }
    }
}

/// A freshly written link at the chain's stopping child is the longest
/// strict suffix node, and the written output link the deepest terminal one.
#[verifier::rlimit(60)]
proof fn lemma_resolved_node_correct(
    arr2: Seq<VertexAhoCorasick>,
    la: Seq<Seq<u8>>,
    npats: int,
    d: int,
    v: int,
    parent: int,
    pch: u8,
    nl: int,
    lk: int,
)
    requires
        trie_wf(arr2, la, npats),
        1 <= v < arr2.len(),
        1 <= parent < arr2.len(),
        parent == arr2[v].parent,
        pch == arr2[v].pch,
        la[v].len() == d,
        la[parent].len() == d - 1,
        la[v] == la[parent].push(pch),
        arr2[parent].children@.contains_key(pch),
        arr2[parent].children@[pch] == v,
        0 <= nl < arr2.len(),
        is_suffix_of(la[nl], la[parent]),
        la[nl].len() < la[parent].len(),
        forall|w2: int|
            1 <= w2 < arr2.len() && is_suffix_of(#[trigger] la[w2], la[parent]) && la[nl].len()
                < la[w2].len() && la[w2].len() < la[parent].len()
                ==> !arr2[w2].children@.contains_key(pch),
        arr2[nl].children@.contains_key(pch),
        lk == arr2[nl].children@[pch],
        la[lk] == la[nl].push(pch),
        is_suffix_of(la[lk], la[v]),
        la[lk].len() < la[v].len(),
        arr2[v].link == lk,
        arr2[v].good_link == (if arr2[lk].pat_num is Some {
            Some(lk as usize)
        } else {
            arr2[lk].good_link
        }),
        resolved_below(arr2, la, d),
    ensures
        link_correct(arr2, la, v),
        good_correct(arr2, la, v),
{
    assert(link_correct(arr2, la, v)) by {
        assert forall|w: int|
            1 <= w < arr2.len() && is_suffix_of(#[trigger] la[w], la[v]) && la[w].len()
                < la[v].len() implies la[w].len() <= la[arr2[v].link as int].len() by {
            lemma_link_step(arr2, la, npats, parent, pch, v, nl, w);
        }
    }
    assert(good_correct(arr2, la, lk)) by {
        assert(la[lk].len() < d);
    }
    assert(good_correct(arr2, la, v)) by {
        assert forall|w: int|
            1 <= w < arr2.len() && is_suffix_of(#[trigger] la[w], la[v]) && la[w].len()
                < la[v].len() implies (arr2[w].pat_num is Some ==> la[w].len() <= spec_good_len(
                arr2,
                la,
                v,
            ))
            && (arr2[v].good_link is None ==> arr2[w].pat_num is None) by {
            assert(la[w].len() <= la[lk].len());
            lemma_good_step(arr2, la, npats, v, lk, w);
        }
    }
}

/// The length of the output-link target's label, or zero when there is none.
spec fn spec_good_len(arr: Seq<VertexAhoCorasick>, labels: Seq<Seq<u8>>, v: int) -> int {
    match arr[v].good_link {
        Some(g) => labels[g as int].len() as int,
        None => 0,
    }
}

/// Rewriting one node's links preserves well-formedness and the
/// correctness of every other node.
proof fn resolve_write_proofs(
    arr0: Seq<VertexAhoCorasick>,
    arr2: Seq<VertexAhoCorasick>,
    la: Seq<Seq<u8>>,
    npats: int,
    v: int,
    d: int,
)
    requires
        trie_wf(arr0, la, npats),
        arr2.len() == arr0.len(),
        1 <= v < arr0.len(),
        la[v].len() == d,
        forall|w: int|
            0 <= w < arr0.len() ==> (#[trigger] arr2[w]).children == arr0[w].children && arr2[w].pat_num == arr0[w].pat_num && arr2[w].parent == arr0[w].parent && arr2[w].pch
                == arr0[w].pch && arr2[w].depth == arr0[w].depth,
        forall|w: int| 0 <= w < arr0.len() && w != v ==> (#[trigger] arr2[w]).link == arr0[w].link
            && arr2[w].good_link == arr0[w].good_link,
        (arr2[v].link as int) < arr0.len(),
        is_suffix_of(la[arr2[v].link as int], la[v]),
        la[arr2[v].link as int].len() < la[v].len(),
        (arr2[v].good_link matches Some(g) ==> 0 <= (g as int) < arr0.len() && is_suffix_of(
            la[g as int],
            la[v],
        ) && la[g as int].len() < la[v].len() && arr0[g as int].pat_num is Some),
        resolved_below(arr0, la, d),
    ensures
        trie_wf(arr2, la, npats),
        resolved_below(arr2, la, d),
        forall|w: int|
            1 <= w < arr0.len() && w != v && link_correct(arr0, la, w) && good_correct(
                arr0,
                la,
                w,
            ) ==> #[trigger] link_correct(arr2, la, w) && good_correct(arr2, la, w),
{
    assert(trie_wf(arr2, la, npats)) by {
        assert forall|w: int, c: u8|
            #![trigger arr2[w].children@.contains_key(c)]
            0 <= w < arr2.len() && arr2[w].children@.contains_key(c) implies {
            let ww = arr2[w].children@[c] as int;
            &&& 1 <= ww < arr2.len()
            &&& la[ww] == la[w].push(c)
        } by {
            assert(arr2[w].children@ == arr0[w].children@);
            assert(arr0[w].children@.contains_key(c));
        }
        assert forall|w: int|
            1 <= w < arr2.len() implies {
            let u = (#[trigger] arr2[w].parent) as int;
            &&& 0 <= u < arr2.len()
            &&& la[u] == la[w].drop_last()
            &&& arr2[w].pch == la[w].last()
            &&& arr2[u].children@.contains_key(arr2[w].pch)
            &&& arr2[u].children@[arr2[w].pch] == w
        } by {
            assert(arr2[w].parent == arr0[w].parent);
            assert(arr2[arr0[w].parent as int].children@ == arr0[arr0[w].parent as int].children@);
        }
    }
    assert forall|w: int|
        1 <= w < arr0.len() && w != v && link_correct(arr0, la, w) && good_correct(
            arr0,
            la,
            w,
        ) implies #[trigger] link_correct(arr2, la, w) && good_correct(arr2, la, w) by {
        assert(arr2[w].link == arr0[w].link);
        assert(arr2[w].good_link == arr0[w].good_link);
        assert forall|w2: int|
            1 <= w2 < arr2.len() && is_suffix_of(#[trigger] la[w2], la[w]) && la[w2].len() < la[w].len() && arr2[w2].pat_num is Some implies arr0[w2].pat_num is Some by {}
    }
    assert forall|w: int|
        1 <= w < arr2.len() && (#[trigger] la[w]).len() < d implies link_correct(arr2, la, w)
            && good_correct(arr2, la, w) by {
        assert(w != v);
        assert(link_correct(arr0, la, w) && good_correct(arr0, la, w));
    }
}

/// Equal-length byte ranges of two arrays coincide.
fn eq_across(x: &Vec<u8>, a: usize, y: &Vec<u8>, b: usize, k: usize) -> (res: bool)
    requires
        a + k <= x@.len(),
        b + k <= y@.len(),
    ensures
        res == (forall|t: int| 0 <= t < k ==> x@[a + t] == #[trigger] y@[b + t]),
{
    let xlen = x.len();
    let ylen = y.len();
    let mut t: usize = 0;
    while t < k
        invariant
            t <= k,
            xlen == x@.len(),
            ylen == y@.len(),
            a + k <= xlen,
            b + k <= ylen,
            forall|u: int| 0 <= u < t ==> x@[a + u] == #[trigger] y@[b + u],
        decreases k - t,
    {
        if x[a + t] != y[b + t] {
            return false;
        }
        t += 1;
    }
    true
}

/// Search for a common substring of `a` and `b` by hashing windows of a
/// binary-searched length and confirming candidates byte for byte: any
/// returned slice is a (non-empty) substring of both inputs.
pub fn common_substring<'a>(a: &'a str, b: &'a str) -> (res: Option<&'a str>)
    requires
        a.is_ascii(),
        b.is_ascii(),
    ensures
        res matches Some(sub) ==> sub@.len() >= 1 && is_substring_of(a@, sub@)
            && is_substring_of(b@, sub@),
        (a@.len() == 0 || b@.len() == 0) ==> res is None,
{
    broadcast use vstd::string::is_ascii_spec_bytes;
    broadcast use vstd::laws_cmp::group_laws_cmp;

    if a.is_empty() || b.is_empty() {
        return None;
    }
    let ab = a.as_bytes_vec();
    let bb = b.as_bytes_vec();
    let la = ab.len();
    let lb = bb.len();
    proof {
        assert(a.spec_bytes().len() == a@.len());
        assert(b.spec_bytes().len() == b@.len());
    }
    let maxlen = if la >= lb {
        la
    } else {
        lb
    };
    let minlen = if la <= lb {
        la
    } else {
        lb
    };
    let mut p: Vec<u64> = Vec::new();
    let mut q: usize = 0;
    while q < maxlen
        invariant
            p@.len() == q,
            q <= maxlen,
        decreases maxlen - q,
    {
        if q == 0 {
            p.push(1);
        } else {
            let prev = p[q - 1];
            p.push(prev.wrapping_mul(31));
        }
        q += 1;
    }
    let mut h1: Vec<u64> = Vec::new();
    let mut q1: usize = 0;
    while q1 < la
        invariant
            h1@.len() == q1,
            q1 <= la,
            la == ab@.len(),
            la <= maxlen,
            p@.len() == maxlen,
        decreases la - q1,
    {
        let mut v = (ab[q1] as u64).wrapping_mul(p[q1]);
        if q1 != 0 {
            v = v.wrapping_add(h1[q1 - 1]);
        }
        h1.push(v);
        q1 += 1;
    }
    let mut h2: Vec<u64> = Vec::new();
    let mut q2: usize = 0;
    while q2 < lb
        invariant
            h2@.len() == q2,
            q2 <= lb,
            lb == bb@.len(),
            lb <= maxlen,
            p@.len() == maxlen,
        decreases lb - q2,
    {
        let mut v = (bb[q2] as u64).wrapping_mul(p[q2]);
        if q2 != 0 {
            v = v.wrapping_add(h2[q2 - 1]);
        }
        h2.push(v);
        q2 += 1;
    }
    let mut res: Option<&'a str> = None;
    let mut l: usize = 0;
    let mut r: usize = minlen - 1;
    while l < r
        invariant
            a.is_ascii(),
            b.is_ascii(),
            la == ab@.len(),
            lb == bb@.len(),
            la == a@.len(),
            lb == b@.len(),
            ab@ == a.spec_bytes(),
            bb@ == b.spec_bytes(),
            la >= 1,
            lb >= 1,
            minlen <= la && minlen <= lb,
            maxlen >= la && maxlen >= lb,
            p@.len() == maxlen,
            h1@.len() == la,
            h2@.len() == lb,
            r <= minlen - 1,
            l <= minlen,
            res matches Some(sub) ==> sub@.len() >= 1 && is_substring_of(a@, sub@)
                && is_substring_of(b@, sub@),
        decreases r + 1 - l,
    {
        let mid = r - (r - l) / 2;
        let mut map: std::collections::BTreeMap<u64, usize> = std::collections::BTreeMap::new();
        let mut i: usize = 0;
        while i < la - mid + 1
            invariant
                1 <= mid <= minlen,
                minlen <= la && minlen <= lb,
                maxlen >= la && maxlen >= lb,
                la == ab@.len(),
                p@.len() == maxlen,
                h1@.len() == la,
                i <= la - mid + 1,
                forall|key: u64|
                    #[trigger] map@.contains_key(key) ==> map@[key] + mid <= la,
            decreases la - mid + 1 - i,
        {
            let mut hash = h1[i + mid - 1];
            if i != 0 {
                hash = hash.wrapping_sub(h1[i - 1]);
            }
            hash = hash.wrapping_mul(p[maxlen - i - 1]);
            map.insert(hash, i);
            i += 1;
        }
        let mut f = false;
        let mut j: usize = 0;
        while j < lb - mid + 1
            invariant
                a.is_ascii(),
                b.is_ascii(),
                1 <= mid <= minlen,
                minlen <= la && minlen <= lb,
                maxlen >= la && maxlen >= lb,
                la == ab@.len(),
                lb == bb@.len(),
                la == a@.len(),
                lb == b@.len(),
                ab@ == a.spec_bytes(),
                bb@ == b.spec_bytes(),
                p@.len() == maxlen,
                h2@.len() == lb,
                j <= lb - mid + 1,
                forall|key: u64|
                    #[trigger] map@.contains_key(key) ==> map@[key] + mid <= la,
                res matches Some(sub) ==> sub@.len() >= 1 && is_substring_of(a@, sub@)
                    && is_substring_of(b@, sub@),
            decreases lb - mid + 1 - j,
        {
            let mut hash = h2[j + mid - 1];
            if j != 0 {
                hash = hash.wrapping_sub(h2[j - 1]);
            }
            hash = hash.wrapping_mul(p[maxlen - j - 1]);
            if let Some(idx) = map.get(&hash) {
                let idx2 = *idx;
                proof {
                    assert(map@.contains_key(hash));
                }
                if eq_across(&bb, j, &ab, idx2, mid) {
                    let sub = b.substring_ascii(j, j + mid);
                    proof {
                        lemma_common_piece(a, b, ab@, bb@, idx2 as int, j as int, mid as int, sub);
                    }
                    res = Some(sub);
                    f = true;
                    j = lb - mid + 1;
                } else {
                    j += 1;
                }
            } else {
                j += 1;
            }
        }
        if f {
            l = mid + 1;
        } else {
            r = mid - 1;
        }
    }
    if l == 0 {
        return res;
    }
    let mut map: std::collections::BTreeMap<u64, usize> = std::collections::BTreeMap::new();
    if l <= minlen {
        let mut i: usize = 0;
        while i < la - l + 1
            invariant
                1 <= l <= minlen,
                minlen <= la && minlen <= lb,
                maxlen >= la && maxlen >= lb,
                la == ab@.len(),
                p@.len() == maxlen,
                h1@.len() == la,
                i <= la - l + 1,
                forall|key: u64|
                    #[trigger] map@.contains_key(key) ==> map@[key] + l <= la,
            decreases la - l + 1 - i,
        {
            let mut hash = h1[i + l - 1];
            if i != 0 {
                hash = hash.wrapping_sub(h1[i - 1]);
            }
            hash = hash.wrapping_mul(p[maxlen - i - 1]);
            map.insert(hash, i);
            i += 1;
        }
        let mut j: usize = 0;
        while j < lb - l + 1
            invariant
                a.is_ascii(),
                b.is_ascii(),
                1 <= l <= minlen,
                minlen <= la && minlen <= lb,
                maxlen >= la && maxlen >= lb,
                la == ab@.len(),
                lb == bb@.len(),
                la == a@.len(),
                lb == b@.len(),
                ab@ == a.spec_bytes(),
                bb@ == b.spec_bytes(),
                p@.len() == maxlen,
                h2@.len() == lb,
                j <= lb - l + 1,
                forall|key: u64|
                    #[trigger] map@.contains_key(key) ==> map@[key] + l <= la,
                res matches Some(sub) ==> sub@.len() >= 1 && is_substring_of(a@, sub@)
                    && is_substring_of(b@, sub@),
            decreases lb - l + 1 - j,
        {
            let mut hash = h2[j + l - 1];
            if j != 0 {
                hash = hash.wrapping_sub(h2[j - 1]);
            }
            hash = hash.wrapping_mul(p[maxlen - j - 1]);
            if let Some(idx) = map.get(&hash) {
                let idx2 = *idx;
                proof {
                    assert(map@.contains_key(hash));
                }
                if eq_across(&bb, j, &ab, idx2, l) {
                    let sub = b.substring_ascii(j, j + l);
                    proof {
                        lemma_common_piece(a, b, ab@, bb@, idx2 as int, j as int, l as int, sub);
                    }
                    res = Some(sub);
                    j = lb - l + 1;
                } else {
                    j += 1;
                }
            } else {
                j += 1;
            }
        }
    }
    res
}

/// A byte-for-byte match between ranges of two ASCII strings makes the
/// carved-out slice a substring of both.
proof fn lemma_common_piece(
    a: &str,
    b: &str,
    abytes: Seq<u8>,
    bbytes: Seq<u8>,
    ai: int,
    bi: int,
    k: int,
    sub: &str,
)
    requires
        a.is_ascii(),
        b.is_ascii(),
        abytes == a.spec_bytes(),
        bbytes == b.spec_bytes(),
        abytes.len() == a@.len(),
        bbytes.len() == b@.len(),
        0 <= ai,
        0 <= bi,
        k >= 1,
        ai + k <= abytes.len(),
        bi + k <= bbytes.len(),
        forall|t: int| 0 <= t < k ==> bbytes[bi + t] == #[trigger] abytes[ai + t],
        sub@ == b@.subrange(bi, bi + k),
    ensures
        sub@.len() >= 1,
        is_substring_of(a@, sub@),
        is_substring_of(b@, sub@),
{
    broadcast use vstd::string::is_ascii_spec_bytes;
    broadcast use vstd::utf8::is_ascii_chars_nat_bound;

    assert(is_substring_of(b@, sub@)) by {
        assert(sub@ == b@.subrange(bi, bi + sub@.len()));
    }
    assert(sub@ =~= a@.subrange(ai, ai + k)) by {
        assert forall|t: int| 0 <= t < k implies sub@[t] == a@.subrange(ai, ai + k)[t] by {
            assert(sub@[t] == b@[bi + t]);
            assert(bbytes[bi + t] == b@[bi + t] as u8);
            assert(abytes[ai + t] == a@[ai + t] as u8);
            assert(vstd::utf8::is_ascii_chars(a@));
            assert(vstd::utf8::is_ascii_chars(b@));
            assert(b@[bi + t] as nat <= 0x7f);
            assert(a@[ai + t] as nat <= 0x7f);
            assert(b@[bi + t] as nat == a@[ai + t] as nat);
            assert(b@[bi + t] == a@[ai + t]);
        }
    }
    assert(is_substring_of(a@, sub@)) by {
        assert(sub@ == a@.subrange(ai, ai + sub@.len()));
    }
}

} // verus!
