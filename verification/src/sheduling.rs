use vstd::prelude::*;

verus! {

/// One part for Johnson's two-machine schedule: an id and the machining
/// times on the first and second machine.
#[derive(Copy, Clone, Debug)]
pub struct Job {
    id: u32,
    first_time: u32,
    second_time: u32,
}

impl Job {
    pub fn new(id: u32, first_time: u32, second_time: u32) -> (r: Self)
        ensures
            r.spec_id() == id,
            r.spec_first() == first_time,
            r.spec_second() == second_time,
    {
        Job { id, first_time, second_time }
    }

    pub fn get_id(&self) -> (r: u32)
        ensures
            r == self.spec_id(),
    {
        self.id
    }

    pub closed spec fn spec_id(self) -> u32 {
        self.id
    }

    pub closed spec fn spec_first(self) -> u32 {
        self.first_time
    }

    pub closed spec fn spec_second(self) -> u32 {
        self.second_time
    }
}

pub open spec fn min2_u32(a: u32, b: u32) -> u32 {
    if a <= b {
        a
    } else {
        b
    }
}

/// The completion time of the schedule: parts are fed to the first machine
/// back to back, and the second machine starts each part as soon as both it
/// and the part are ready.
pub open spec fn schedule_time(s: Seq<Job>, i: int, t: int, total: int) -> int
    decreases s.len() - i,
{
    if i < 0 || i >= s.len() {
        total
    } else {
        let t2 = t + s[i].spec_first();
        let total2 = (if t2 >= total {
            t2
        } else {
            total
        }) + s[i].spec_second();
        schedule_time(s, i + 1, t2, total2)
    }
}

/// Johnson's rule keeps `a` before `b`: the smallest of the four machining
/// times is `a`'s first or `b`'s second.
pub open spec fn johnson_stay(a: Job, b: Job) -> bool {
    let mm = min2_u32(
        min2_u32(a.spec_first(), a.spec_second()),
        min2_u32(b.spec_first(), b.spec_second()),
    );
    mm == a.spec_first() || mm == b.spec_second()
}

/// Johnson's rule holds in one of the two orders of any two jobs.
pub proof fn lemma_stay_total(a: Job, b: Job)
    ensures
        johnson_stay(a, b) || johnson_stay(b, a),
{
}

/// Whether Johnson's rule keeps the job before its successor.
fn stay_at(v: &Vec<Job>, p: usize) -> (r: bool)
    requires
        0 < p < v@.len(),
    ensures
        r == johnson_stay(v@[p - 1], v@[p as int]),
{
    let a = v[p - 1];
    let b = v[p];
    let mm = min_u32(min_u32(a.first_time, a.second_time), min_u32(b.first_time, b.second_time));
    mm == a.first_time || mm == b.second_time
}

/// Every job's two times fit in 16 bits.
pub open spec fn jobs_bounded(s: Seq<Job>) -> bool {
    forall|i: int|
        0 <= i < s.len() ==> (#[trigger] s[i]).spec_first() <= 0xFFFF && s[i].spec_second()
            <= 0xFFFF
}

/// Johnson's Algorithm For Scheduling.
/// There are n parts and two machines. Each part must first be machined on
/// the first machine, then on the second one. The result feeds the parts in
/// the order of Johnson's comparison and reports the total machining time.
pub fn johnson_algorithm(jobs: &Vec<Job>) -> (r: (Vec<Job>, u32))
    requires
        jobs@.len() <= 0x7FFF,
        jobs_bounded(jobs@),
    ensures
        r.0@.to_multiset() == jobs@.to_multiset(),
        r.0@.len() == jobs@.len(),
        forall|t: int| 0 < t < r.0@.len() ==> #[trigger] johnson_stay(r.0@[t - 1], r.0@[t]),
        r.1 == schedule_time(r.0@, 0, 0, 0),
{
    broadcast use vstd::seq_lib::group_to_multiset_ensures;
    broadcast use vstd::seq_lib::to_multiset_update;

    let mut res: Vec<Job> = Vec::new();
    let mut q: usize = 0;
    while q < jobs.len()
        invariant
            q <= jobs@.len(),
            res@ == jobs@.subrange(0, q as int),
        decreases jobs@.len() - q,
    {
        let e = jobs[q];
        res.push(e);
        proof {
            assert(jobs@.subrange(0, (q + 1) as int) =~= jobs@.subrange(0, q as int).push(e));
        }
        q += 1;
    }
    proof {
        assert(jobs@.subrange(0, jobs@.len() as int) =~= jobs@);
    }
    let n = res.len();
    let mut i: usize = 1;
    while i < n
        invariant
            1 <= i <= n || n == 0,
            n == res@.len(),
            n == jobs@.len(),
            res@.to_multiset() == jobs@.to_multiset(),
            forall|t: int| 0 < t < i ==> #[trigger] johnson_stay(res@[t - 1], res@[t]),
        decreases n - i,
    {
        let m: usize = i + 1;
        let mut p: usize = i;
        while p > 0 && !stay_at(&res, p)
            invariant
                p <= i < n,
                m == i + 1,
                n == res@.len(),
                n == jobs@.len(),
                res@.to_multiset() == jobs@.to_multiset(),
                forall|t: int|
                    0 < t < m && t != p && t != p + 1 ==> #[trigger] johnson_stay(
                        res@[t - 1],
                        res@[t],
                    ),
                p + 1 < m ==> johnson_stay(res@[p as int], res@[p + 1]),
                0 < p && p + 1 < m ==> johnson_stay(res@[p - 1], res@[p + 1]),
            decreases p,
        {
            let ghost before = res@;
            let a = res[p - 1];
            let b = res[p];
            proof {
                lemma_stay_total(a, b);
            }
            res[p - 1] = b;
            res[p] = a;
            proof {
                assert(res@ == before.update(p - 1, b).update(p as int, a));
                let s1 = before.update(p - 1, b);
                assert(s1[p as int] == before[p as int]);
                assert(before[p - 1] == a && before[p as int] == b);
                assert(before.contains(a)) by {
                    assert(0 <= p - 1 < before.len() && before[p - 1] == a);
                }
                before.to_multiset_ensures();
                assert(before.to_multiset().count(a) > 0);
                vstd::seq_lib::to_multiset_update(before, p - 1, b);
                vstd::seq_lib::to_multiset_update(s1, p as int, a);
                assert(s1.to_multiset() == before.to_multiset().insert(b).remove(a));
                assert(res@.to_multiset() == s1.to_multiset().insert(a).remove(b));
                assert(res@.to_multiset() =~= before.to_multiset());
            }
            p -= 1;
        }
        proof {
            assert forall|t: int|
                0 < t < m implies #[trigger] johnson_stay(res@[t - 1], res@[t]) by {
                if t == p {
                } else if t == p + 1 {
                } else {
                }
            }
        }
        i = m;
    }
    proof {
        assert(jobs_bounded(res@)) by {
            assert forall|t: int|
                0 <= t < res@.len() implies (#[trigger] res@[t]).spec_first() <= 0xFFFF
                    && res@[t].spec_second() <= 0xFFFF by {
                assert(res@.contains(res@[t]));
                assert(jobs@.to_multiset().count(res@[t]) > 0);
                assert(jobs@.contains(res@[t]));
                let q2 = choose|q2: int| 0 <= q2 < jobs@.len() && jobs@[q2] == res@[t];
                assert(jobs@[q2].spec_first() <= 0xFFFF);
            }
        }
    }
    let mut t: u32 = 0;
    let mut total: u32 = 0;
    let mut w: usize = 0;
    while w < n
        invariant
            w <= n,
            n == res@.len(),
            n <= 0x7FFF,
            jobs_bounded(res@),
            t <= w * 0x1_FFFE,
            total <= w * 0x1_FFFE,
            schedule_time(res@, w as int, t as int, total as int) == schedule_time(res@, 0, 0, 0),
        decreases n - w,
    {
        let job = res[w];
        proof {
            assert(res@[w as int].spec_first() <= 0xFFFF);
            assert(w * 0x1_FFFE + 0x1_FFFE == (w + 1) * 0x1_FFFE) by (nonlinear_arith);
            assert((w + 1) * 0x1_FFFE <= 0x7FFF * 0x1_FFFE) by (nonlinear_arith)
                requires
                    w + 1 <= 0x7FFF,
            ;
        }
        t = t + job.first_time;
        total = (if t >= total {
            t
        } else {
            total
        }) + job.second_time;
        w += 1;
    }
    proof {
        assert(schedule_time(res@, n as int, t as int, total as int) == total as int);
    }
    (res, total)
}

/// The smaller of two values.
fn min_u32(a: u32, b: u32) -> (r: u32)
    ensures
        r == min2_u32(a, b),
{
    if a <= b {
        a
    } else {
        b
    }
}

} // verus!
