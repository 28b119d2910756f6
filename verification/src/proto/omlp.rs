use vstd::prelude::*;

use crate::task::Task;
use crate::rsrc::{
    System, Mutex, Rw, RwPair, Request, TaskRequest, RequestKind, RequestSet, usage_matches,
    task_in, req_modest, sys_modest, sorted_by_length_desc, distinct_tasks, mutex_usages_valid,
    rw_usages_valid, lemma_mutex_usage_modest, lemma_rw_usage_modest,
};
use crate::sharing::{
    ObliviousAnalyzer, ObliviousData, ObliviousModel, Bound, BoundModel, BoundBlocking, Limits,
    bm_zero, bm_add, bm_scale, bm_max, blocking, lemma_blocking_bounds, lemma_blocking_nonneg,
    lemma_blocking_same_view, lemma_mul_le, data_modest,
};

verus! {

/// The global version of Brandenburg and Anderson's _O(m) Locking
/// Protocol_ (OMLP).
pub struct GlobalOm {
    num_cpus: usize,
}

impl GlobalOm {
    /// The number of CPUs this analyzer was set up with.
    pub closed spec fn spec_num_cpus(&self) -> int {
        self.num_cpus as int
    }

    /// Constructs a new instance of `GlobalOm` with the given number of
    /// CPUs.
    pub fn new(num_cpus: usize) -> (s: Self)
        ensures
            s.spec_num_cpus() == num_cpus,
    {
        GlobalOm { num_cpus }
    }
}

/// The number of entries among the first `upto` of `s` whose task makes
/// at least one request.
pub open spec fn count_nonzero_upto(s: Seq<TaskRequest>, upto: int) -> int
    decreases upto,
{
    if upto <= 0 {
        0
    } else {
        count_nonzero_upto(s, upto - 1) + if s[upto - 1].req.num > 0 {
            1int
        } else {
            0int
        }
    }
}

/// The count of requesting tasks never exceeds the number of entries
/// counted over.
proof fn lemma_count_nonzero_bounds(s: Seq<TaskRequest>, upto: int)
    ensures
        0 <= count_nonzero_upto(s, upto),
        count_nonzero_upto(s, upto) <= (if upto >= 0 { upto } else { 0 }),
    decreases upto,
{
    if upto > 0 {
        lemma_count_nonzero_bounds(s, upto - 1);
    }
}

/// An entry with a nonzero request makes the count of requesting tasks
/// positive.
proof fn lemma_count_nonzero_at(s: Seq<TaskRequest>, j: int, upto: int)
    requires
        0 <= j < upto,
        s[j].req.num > 0,
    ensures
        count_nonzero_upto(s, upto) >= 1,
    decreases upto,
{
    lemma_count_nonzero_bounds(s, upto - 1);
    if j < upto - 1 {
        lemma_count_nonzero_at(s, j, upto - 1);
    }
}

/// Sequences that agree on their first `upto` entries count the same
/// number of requesting tasks there.
proof fn lemma_count_nonzero_prefix(s1: Seq<TaskRequest>, s2: Seq<TaskRequest>, upto: int)
    requires
        forall|i: int| 0 <= i < upto ==> s1[i] == s2[i],
    ensures
        count_nonzero_upto(s1, upto) == count_nonzero_upto(s2, upto),
    decreases upto,
{
    if upto > 0 {
        lemma_count_nonzero_prefix(s1, s2, upto - 1);
    }
}

/// Removing one entry takes exactly its own contribution out of the
/// count of requesting tasks.
proof fn lemma_count_nonzero_remove(s: Seq<TaskRequest>, k: int)
    requires
        0 <= k < s.len(),
    ensures
        count_nonzero_upto(s, s.len() as int) == count_nonzero_upto(s.remove(k), s.len() - 1) + (
        if s[k].req.num > 0 {
            1int
        } else {
            0int
        }),
    decreases s.len(),
{
    if k == s.len() - 1 {
        lemma_count_nonzero_prefix(s.remove(k), s, s.len() - 1);
    } else {
        let prev = s.drop_last();
        assert(s.remove(k).drop_last() =~= prev.remove(k));
        lemma_count_nonzero_prefix(prev, s, s.len() - 1);
        lemma_count_nonzero_remove(prev, k);
        lemma_count_nonzero_prefix(prev.remove(k), s.remove(k), s.len() - 2);
        assert(s.remove(k)[s.len() - 2] == s[s.len() - 1]);
    }
}

/// Sequences holding the same entries count the same number of
/// requesting tasks.
proof fn lemma_count_nonzero_multiset(s1: Seq<TaskRequest>, s2: Seq<TaskRequest>)
    requires
        s1.to_multiset() == s2.to_multiset(),
    ensures
        count_nonzero_upto(s1, s1.len() as int) == count_nonzero_upto(s2, s2.len() as int),
    decreases s1.len(),
{
    broadcast use vstd::seq_lib::group_to_multiset_ensures;

    assert(s1.to_multiset().len() == s1.len());
    assert(s2.to_multiset().len() == s2.len());
    if s1.len() > 0 {
        let last = s2.len() - 1;
        let v = s2[last];
        assert(s2.to_multiset().count(v) > 0);
        assert(s1.contains(v));
        let k = choose|k: int| 0 <= k < s1.len() && s1[k] == v;
        lemma_count_nonzero_remove(s1, k);
        lemma_count_nonzero_remove(s2, last);
        assert(s2.remove(last).to_multiset() =~= s2.to_multiset().remove(v));
        assert(s1.remove(k).to_multiset() =~= s1.to_multiset().remove(v));
        lemma_count_nonzero_multiset(s1.remove(k), s2.remove(last));
    }
}

/// The global OMLP interference term for one resource: nothing if the
/// task does not use it; otherwise, with at most `m + 1` requesting
/// tasks only the FIFO queue is ever active and each competitor blocks
/// once per own request, while with more the task is blocked at most
/// twice per request by up to `2m - 1` competitors.
pub open spec fn omlp_term(own: Request, u: Vec<TaskRequest>, task: int, m: int) -> BoundModel {
    if own.num == 0 {
        bm_zero()
    } else {
        let nreqs = count_nonzero_upto(u@, u@.len() as int);
        if nreqs <= m + 1 {
            blocking(u@, task, (nreqs - 1) * own.num, own.num as int)
        } else {
            blocking(u@, task, (2 * m - 1) * own.num, 2 * own.num)
        }
    }
}

/// The global OMLP interference terms of the first `upto` resources,
/// summed.
pub open spec fn omlp_sum(
    own: Seq<Request>,
    us: Seq<Vec<TaskRequest>>,
    task: int,
    m: int,
    upto: int,
) -> BoundModel
    decreases upto,
{
    if upto <= 0 {
        bm_zero()
    } else {
        bm_add(omlp_sum(own, us, task, m, upto - 1), omlp_term(own[upto - 1], us[upto - 1], task, m))
    }
}

proof fn lemma_omlp_sum_same(
    sys: &System<Mutex>,
    us1: Seq<Vec<TaskRequest>>,
    us2: Seq<Vec<TaskRequest>>,
    task: int,
    m: int,
    upto: int,
)
    requires
        mutex_usages_valid(sys, us1),
        mutex_usages_valid(sys, us2),
        0 <= upto <= sys.spec_num_rsrc(),
    ensures
        omlp_sum(sys.spec_reqs()[task], us1, task, m, upto) == omlp_sum(
            sys.spec_reqs()[task],
            us2,
            task,
            m,
            upto,
        ),
    decreases upto,
{
    if upto > 0 {
        lemma_omlp_sum_same(sys, us1, us2, task, m, upto - 1);
        let r = upto - 1;
        let own = sys.spec_reqs()[task][r];
        if own.num != 0 {
            crate::rsrc::lemma_usage_matches_same_multiset(sys.col(r), us1[r]@, us2[r]@);
            lemma_count_nonzero_multiset(us1[r]@, us2[r]@);
            assert(us1[r]@.len() == us2[r]@.len());
            let nreqs = count_nonzero_upto(us1[r]@, us1[r]@.len() as int);
            lemma_blocking_same_view(
                sys.col(r),
                us1[r]@,
                us2[r]@,
                task,
                (nreqs - 1) * own.num,
                own.num as int,
            );
            lemma_blocking_same_view(
                sys.col(r),
                us1[r]@,
                us2[r]@,
                task,
                (2 * m - 1) * own.num,
                2 * own.num,
            );
        }
    }
}

/// The global OMLP analysis is a function of the system alone: any two
/// valid families of sorted usage views yield the same result for every
/// task, whatever order tied requests were put in.
pub proof fn lemma_omlp_pass_deterministic(
    an: &GlobalOm,
    task: int,
    sys: &System<Mutex>,
    us1: Seq<Vec<TaskRequest>>,
    us2: Seq<Vec<TaskRequest>>,
)
    requires
        mutex_usages_valid(sys, us1),
        mutex_usages_valid(sys, us2),
    ensures
        an.pass_spec(task, sys, us1) == an.pass_spec(task, sys, us2),
{
    lemma_omlp_sum_same(sys, us1, us2, task, an.spec_num_cpus(), sys.spec_num_rsrc());
}

/// Implements the analysis for the global version of OMLP.
impl ObliviousAnalyzer<Mutex> for GlobalOm {
    open spec fn admissible(&self, sys: &System<Mutex>) -> bool {
        sys_modest(sys) && 1 <= self.spec_num_cpus() <= 1024
    }

    open spec fn pass_spec(
        &self,
        task: int,
        sys: &System<Mutex>,
        by_rsrc: Seq<Vec<TaskRequest>>,
    ) -> ObliviousModel {
        ObliviousModel {
            arrival: bm_zero(),
            total: omlp_sum(
                sys.spec_reqs()[task],
                by_rsrc,
                task,
                self.spec_num_cpus(),
                sys.spec_num_rsrc(),
            ),
        }
    }

    open spec fn post_spec(&self, sys: &System<Mutex>, data: Seq<ObliviousData>) -> Seq<
        ObliviousModel,
    > {
        data.map_values(|d: ObliviousData| d@)
    }

    fn pass(&self, task: usize, sys: &System<Mutex>, by_rsrc: &Vec<Vec<TaskRequest>>) -> (d:
        ObliviousData) {
        let m = self.num_cpus;
        let own_row = sys.reqs_by(task);
        let mut acc = Bound::zero();
        let mut r: usize = 0;
        while r < by_rsrc.len()
            invariant
                sys.wf(),
                sys_modest(sys),
                task < sys.spec_tasks().len(),
                1 <= m <= 1024,
                m == self.spec_num_cpus(),
                by_rsrc@.len() == sys.spec_num_rsrc(),
                forall|j: int|
                    0 <= j < sys.spec_num_rsrc() ==> usage_matches(
                        sys.col(j),
                        (#[trigger] by_rsrc@[j])@,
                    ),
                forall|j: int|
                    0 <= j < sys.spec_num_rsrc() ==> (#[trigger] by_rsrc@[j]).sorted_spec(),
                own_row@ == sys.spec_reqs()[task as int],
                r <= by_rsrc@.len(),
                acc@ == omlp_sum(own_row@, by_rsrc@, task as int, m as int, r as int),
                acc.count <= r * 0x10_0000,
                acc.length <= r * 0x100_0000_0000,
            decreases by_rsrc@.len() - r,
        {
            let req = own_row[r];
            proof {
                lemma_mutex_usage_modest(sys, r as int, by_rsrc[r as int]);
            }
            let term: Bound;
            if req.num == 0 {
                term = Bound::zero();
            } else {
                let rset = &by_rsrc[r];

                // number of tasks with at least one request to this resource
                let mut nreqs: usize = 0;
                let mut i: usize = 0;
                while i < rset.len()
                    invariant
                        i <= rset@.len() <= 1024,
                        nreqs == count_nonzero_upto(rset@, i as int),
                        nreqs <= i,
                    decreases rset@.len() - i,
                {
                    proof {
                        lemma_count_nonzero_bounds(rset@, i as int);
                    }
                    if rset[i].req.num > 0 {
                        nreqs = nreqs + 1;
                    }
                    i = i + 1;
                }

                proof {
                    // the task's own entry requests, so at least one task does
                    assert(task_in(rset@, task as int));
                    let j = choose|j: int|
                        0 <= j < rset@.len() && (#[trigger] rset@[j]).task == task as int;
                    assert(rset@[j].req == sys.col(r as int)[task as int]);
                    lemma_count_nonzero_at(rset@, j, rset@.len() as int);
                }

                let limits: Limits;
                if nreqs <= m + 1 {
                    // only the FIFO component is ever active
                    proof {
                        lemma_mul_le(nreqs - 1, req.num as int, 1023, 256);
                        lemma_blocking_bounds(
                            rset@,
                            task as int,
                            (nreqs - 1) * req.num,
                            req.num as int,
                            0x10_0000,
                        );
                        lemma_mul_le((nreqs - 1) * req.num, 0x10_0000, (1023 * 256) as int, 0x10_0000);
                    }
                    limits = Limits { total: nreqs - 1, per_task: 1 }.mul(req.num);
                } else {
                    // twice per request
                    proof {
                        lemma_mul_le(2 * m - 1, req.num as int, 2047, 256);
                        lemma_mul_le(2, req.num as int, 2, 256);
                        lemma_blocking_bounds(
                            rset@,
                            task as int,
                            (2 * m - 1) * req.num,
                            2 * req.num,
                            0x10_0000,
                        );
                        lemma_mul_le((2 * m - 1) * req.num, 0x10_0000, (2047 * 256) as int, 0x10_0000);
                    }
                    limits = Limits { total: 2 * m - 1, per_task: 2 }.mul(req.num);
                }
                term = rset.bound_blocking(task, limits);
            }
            proof {
                assert((r + 1) * 0x10_0000 == r * 0x10_0000 + 0x10_0000) by (nonlinear_arith);
                assert((r + 1) * 0x100_0000_0000 == r * 0x100_0000_0000 + 0x100_0000_0000)
                    by (nonlinear_arith);
            }
            acc = acc.add(term);
            r = r + 1;
        }
        proof {
            lemma_mul_le(r as int, 0x10_0000, 1024, 0x10_0000);
            lemma_mul_le(r as int, 0x100_0000_0000, 1024, 0x100_0000_0000);
        }
        ObliviousData::from_total(acc)
    }

    proof fn pass_deterministic(
        &self,
        task: int,
        sys: &System<Mutex>,
        us1: Seq<Vec<TaskRequest>>,
        us2: Seq<Vec<TaskRequest>>,
    ) {
        crate::rsrc::lemma_mutex_usages_valid(sys, us1);
        crate::rsrc::lemma_mutex_usages_valid(sys, us2);
        lemma_omlp_pass_deterministic(self, task, sys, us1, us2);
    }

    fn post(&self, _sys: &System<Mutex>, _out: &mut Vec<ObliviousData>) {
    }

    fn name(&self) -> &'static str {
        "OMLP"
    }
}

/// The clustered version of Brandenburg and Anderson's _O(m) Locking
/// Protocol_ family (C-OMLP), specialized for the single-cluster case.
pub struct SingleClusterOm {
    num_cpus: usize,
}

impl SingleClusterOm {
    /// The number of CPUs this analyzer was set up with.
    pub closed spec fn spec_num_cpus(&self) -> int {
        self.num_cpus as int
    }

    /// Constructs a new instance of `SingleClusterOm` with the given
    /// number of CPUs.
    pub fn new(num_cpus: usize) -> (s: Self)
        ensures
            s.spec_num_cpus() == num_cpus,
    {
        SingleClusterOm { num_cpus }
    }
}

/// The priority-donation term for the task at index `t`: the largest
/// arrival bound among the first `upto` tasks other than `t` whose
/// priority value is smaller or equal, nothing if there is no such task.
pub open spec fn donation(tasks: Seq<Task>, data: Seq<ObliviousData>, t: int, upto: int) -> BoundModel
    decreases upto,
{
    if upto <= 0 {
        bm_zero()
    } else {
        let prev = donation(tasks, data, t, upto - 1);
        if upto - 1 != t && tasks[upto - 1].priority <= tasks[t].priority {
            bm_max(prev, data[upto - 1]@.arrival)
        } else {
            prev
        }
    }
}

/// The effect of the priority-donation aggregation pass: each task's
/// total grows by its donation term, arrival bounds stay as they are.
pub open spec fn donated(tasks: Seq<Task>, data: Seq<ObliviousData>) -> Seq<ObliviousModel> {
    Seq::new(
        data.len(),
        |t: int|
            ObliviousModel {
                arrival: data[t]@.arrival,
                total: bm_add(data[t]@.total, donation(tasks, data, t, data.len() as int)),
            },
    )
}

/// The donation term stays within the range of the arrival bounds it is
/// the maximum of.
proof fn lemma_donation_bounds(tasks: Seq<Task>, data: Seq<ObliviousData>, t: int, upto: int)
    requires
        upto <= data.len(),
        forall|i: int| 0 <= i < data.len() ==> data_modest(#[trigger] data[i]),
    ensures
        0 <= donation(tasks, data, t, upto).count <= 0x4000_0000,
        0 <= donation(tasks, data, t, upto).length <= 0x4_0000_0000_0000,
    decreases upto,
{
    if upto > 0 {
        lemma_donation_bounds(tasks, data, t, upto - 1);
    }
}

/// Adds the priority-donation term to each task's total: a task can be
/// delayed once more by the outstanding request of whichever task of
/// smaller-or-equal priority value is donating its priority at lock
/// acquisition.
fn post_donation<K: RequestKind>(sys: &System<K>, out: &mut Vec<ObliviousData>)
    requires
        sys.wf(),
        old(out)@.len() == sys.spec_tasks().len(),
        forall|i: int| 0 <= i < old(out)@.len() ==> data_modest(#[trigger] old(out)@[i]),
    ensures
        final (out)@.len() == old(out)@.len(),
        forall|i: int|
            0 <= i < old(out)@.len() ==> (#[trigger] final (out)@[i])@ == donated(
                sys.spec_tasks(),
                old(out)@,
            )[i],
{
    let n = out.len();
    let mut t: usize = 0;
    while t < n
        invariant
            sys.wf(),
            n == out@.len(),
            n == old(out)@.len(),
            n == sys.spec_tasks().len(),
            t <= n,
            forall|i: int| 0 <= i < n ==> data_modest(#[trigger] old(out)@[i]),
            forall|i: int| t <= i < n ==> #[trigger] out@[i] == old(out)@[i],
            forall|i: int|
                0 <= i < t ==> (#[trigger] out@[i])@ == donated(sys.spec_tasks(), old(out)@)[i],
            forall|i: int| 0 <= i < n ==> (#[trigger] out@[i]).arrival == old(out)@[i].arrival,
        decreases n - t,
    {
        let mut don = Bound::zero();
        let mut i: usize = 0;
        while i < n
            invariant
                sys.wf(),
                n == out@.len(),
                n == old(out)@.len(),
                n == sys.spec_tasks().len(),
                t < n,
                i <= n,
                forall|j: int| 0 <= j < n ==> data_modest(#[trigger] old(out)@[j]),
                forall|j: int| 0 <= j < n ==> (#[trigger] out@[j]).arrival == old(out)@[j].arrival,
                don@ == donation(sys.spec_tasks(), old(out)@, t as int, i as int),
            decreases n - i,
        {
            if i != t && self_priority(sys, i) <= self_priority(sys, t) {
                let arr = out[i].arrival;
                don = don.max_of(arr);
            }
            i = i + 1;
        }
        proof {
            lemma_donation_bounds(sys.spec_tasks(), old(out)@, t as int, n as int);
        }
        let cur = out[t];
        out[t] = ObliviousData { arrival: cur.arrival, total: cur.total.add(don) };
        t = t + 1;
    }
}

/// Reads the priority of the task at index `i`.
fn self_priority<K: RequestKind>(sys: &System<K>, i: usize) -> (p: u64)
    requires
        i < sys.spec_tasks().len(),
    ensures
        p == sys.spec_tasks()[i as int].priority,
{
    sys.task(i).priority
}

/// The C-OMLP total interference term for one resource: the greedy bound
/// with a budget of one request from each of the `m - 1` other CPUs, per
/// own request.
pub open spec fn sco_term_total(own: Request, u: Vec<TaskRequest>, task: int, m: int) -> BoundModel {
    blocking(u@, task, (m - 1) * own.num, own.num as int)
}

/// The C-OMLP arrival-blocking term for one resource: the interference of
/// a single outstanding request, plus that request itself.
pub open spec fn sco_term_arrival(own: Request, u: Vec<TaskRequest>, task: int, m: int) -> BoundModel {
    let single = if own.num == 1 {
        sco_term_total(own, u, task, m)
    } else {
        blocking(u@, task, m - 1, 1)
    };
    bm_add(single, BoundModel { length: own.length as int, count: 1 })
}

/// The C-OMLP results over the first `upto` resources: totals summed,
/// arrival terms maximized, resources the task does not use skipped.
pub open spec fn sco_pass_upto(
    own: Seq<Request>,
    us: Seq<Vec<TaskRequest>>,
    task: int,
    m: int,
    upto: int,
) -> ObliviousModel
    decreases upto,
{
    if upto <= 0 {
        ObliviousModel { arrival: bm_zero(), total: bm_zero() }
    } else {
        let prev = sco_pass_upto(own, us, task, m, upto - 1);
        if own[upto - 1].num == 0 {
            prev
        } else {
            ObliviousModel {
                total: bm_add(prev.total, sco_term_total(own[upto - 1], us[upto - 1], task, m)),
                arrival: bm_max(
                    prev.arrival,
                    sco_term_arrival(own[upto - 1], us[upto - 1], task, m),
                ),
            }
        }
    }
}

proof fn lemma_sco_pass_same(
    sys: &System<Mutex>,
    us1: Seq<Vec<TaskRequest>>,
    us2: Seq<Vec<TaskRequest>>,
    task: int,
    m: int,
    upto: int,
)
    requires
        mutex_usages_valid(sys, us1),
        mutex_usages_valid(sys, us2),
        0 <= upto <= sys.spec_num_rsrc(),
    ensures
        sco_pass_upto(sys.spec_reqs()[task], us1, task, m, upto) == sco_pass_upto(
            sys.spec_reqs()[task],
            us2,
            task,
            m,
            upto,
        ),
    decreases upto,
{
    if upto > 0 {
        lemma_sco_pass_same(sys, us1, us2, task, m, upto - 1);
        let r = upto - 1;
        let own = sys.spec_reqs()[task][r];
        if own.num != 0 {
            lemma_blocking_same_view(
                sys.col(r),
                us1[r]@,
                us2[r]@,
                task,
                (m - 1) * own.num,
                own.num as int,
            );
            lemma_blocking_same_view(sys.col(r), us1[r]@, us2[r]@, task, m - 1, 1);
        }
    }
}

/// The C-OMLP analysis is a function of the system alone: any two valid
/// families of sorted usage views yield the same result for every task,
/// whatever order tied requests were put in.
pub proof fn lemma_sco_pass_deterministic(
    an: &SingleClusterOm,
    task: int,
    sys: &System<Mutex>,
    us1: Seq<Vec<TaskRequest>>,
    us2: Seq<Vec<TaskRequest>>,
)
    requires
        mutex_usages_valid(sys, us1),
        mutex_usages_valid(sys, us2),
    ensures
        ObliviousAnalyzer::<Mutex>::pass_spec(an, task, sys, us1) == ObliviousAnalyzer::<
            Mutex,
        >::pass_spec(an, task, sys, us2),
{
    lemma_sco_pass_same(sys, us1, us2, task, an.spec_num_cpus(), sys.spec_num_rsrc());
}

/// Implements the analysis for C-OMLP, specialized for the single-cluster
/// case: per-request blocking is bounded by concurrency, and the
/// aggregation pass adds arrival blocking via priority donation.
impl ObliviousAnalyzer<Mutex> for SingleClusterOm {
    open spec fn admissible(&self, sys: &System<Mutex>) -> bool {
        sys_modest(sys) && 1 <= self.spec_num_cpus() <= 1024
    }

    open spec fn pass_spec(
        &self,
        task: int,
        sys: &System<Mutex>,
        by_rsrc: Seq<Vec<TaskRequest>>,
    ) -> ObliviousModel {
        sco_pass_upto(
            sys.spec_reqs()[task],
            by_rsrc,
            task,
            self.spec_num_cpus(),
            sys.spec_num_rsrc(),
        )
    }

    open spec fn post_spec(&self, sys: &System<Mutex>, data: Seq<ObliviousData>) -> Seq<
        ObliviousModel,
    > {
        donated(sys.spec_tasks(), data)
    }

    fn pass(&self, task: usize, sys: &System<Mutex>, by_rsrc: &Vec<Vec<TaskRequest>>) -> (d:
        ObliviousData) {
        let m = self.num_cpus;
        let own_row = sys.reqs_by(task);
        let mut total = Bound::zero();
        let mut arrival = Bound::zero();
        let mut r: usize = 0;
        while r < by_rsrc.len()
            invariant
                sys.wf(),
                sys_modest(sys),
                task < sys.spec_tasks().len(),
                1 <= m <= 1024,
                m == self.spec_num_cpus(),
                by_rsrc@.len() == sys.spec_num_rsrc(),
                forall|j: int|
                    0 <= j < sys.spec_num_rsrc() ==> usage_matches(
                        sys.col(j),
                        (#[trigger] by_rsrc@[j])@,
                    ),
                forall|j: int|
                    0 <= j < sys.spec_num_rsrc() ==> (#[trigger] by_rsrc@[j]).sorted_spec(),
                own_row@ == sys.spec_reqs()[task as int],
                r <= by_rsrc@.len(),
                sco_pass_upto(own_row@, by_rsrc@, task as int, m as int, r as int)
                    == (ObliviousModel { arrival: arrival@, total: total@ }),
                total.count <= r * 0x10_0000,
                total.length <= r * 0x100_0000_0000,
                arrival.count <= 0x10_0000,
                arrival.length <= 0x100_0000_0000,
            decreases by_rsrc@.len() - r,
        {
            let req = own_row[r];
            if req.num > 0 {
                let rset = &by_rsrc[r];
                proof {
                    lemma_mutex_usage_modest(sys, r as int, by_rsrc[r as int]);
                    lemma_mul_le(m - 1, req.num as int, 1023, 256);
                    lemma_mul_le(1, req.num as int, 1, 256);
                    lemma_blocking_bounds(
                        rset@,
                        task as int,
                        (m - 1) * req.num,
                        req.num as int,
                        0x10_0000,
                    );
                    lemma_mul_le((m - 1) * req.num, 0x10_0000, (1023 * 256) as int, 0x10_0000);
                    lemma_blocking_bounds(rset@, task as int, m - 1, 1, 0x10_0000);
                    lemma_mul_le(m - 1, 0x10_0000, 1023, 0x10_0000);
                }
                let limits = Limits { total: m - 1, per_task: 1 };
                let total_r = rset.bound_blocking(task, limits.mul(req.num));

                let arrival_r = if req.num == 1 {
                    // already a single request, counts for arrival blocking
                    total_r
                } else {
                    // compute as if the task had a single request
                    rset.bound_blocking(task, limits)
                };

                // count our own request too
                let arrival_r = arrival_r.add(Bound::new(req.length));

                proof {
                    assert((r + 1) * 0x10_0000 == r * 0x10_0000 + 0x10_0000) by (nonlinear_arith);
                    assert((r + 1) * 0x100_0000_0000 == r * 0x100_0000_0000 + 0x100_0000_0000)
                        by (nonlinear_arith);
                }
                total = total.add(total_r);
                arrival = arrival.max_of(arrival_r);
            }
            r = r + 1;
        }
        proof {
            lemma_mul_le(r as int, 0x10_0000, 1024, 0x10_0000);
            lemma_mul_le(r as int, 0x100_0000_0000, 1024, 0x100_0000_0000);
        }
        ObliviousData { total, arrival }
    }

    proof fn pass_deterministic(
        &self,
        task: int,
        sys: &System<Mutex>,
        us1: Seq<Vec<TaskRequest>>,
        us2: Seq<Vec<TaskRequest>>,
    ) {
        crate::rsrc::lemma_mutex_usages_valid(sys, us1);
        crate::rsrc::lemma_mutex_usages_valid(sys, us2);
        lemma_sco_pass_deterministic(self, task, sys, us1, us2);
    }

    fn post(&self, sys: &System<Mutex>, out: &mut Vec<ObliviousData>) {
        post_donation(sys, out);
    }

    fn name(&self) -> &'static str {
        "C-OMLP"
    }
}

/// The CRW-OMLP per-resource results: total interference and arrival
/// blocking, as a pair.
///
/// The writer limit mixes read and write counts scaled by `m - 1`; the
/// reader limit is capped by the realized writer count; arrival blocking
/// is computed per access type, as the interference of one single
/// outstanding request of that type plus the request itself.
pub open spec fn crw_terms(
    own: RwPair<Request>,
    u: RwPair<Vec<TaskRequest>>,
    task: int,
    m: int,
) -> (BoundModel, BoundModel) {
    let read = own.read;
    let write = own.write;
    let wl_total = read.num + write.num * (m - 1);
    let wl_per = read.num + write.num;
    let wtotal = blocking(u.write@, task, wl_total, wl_per);
    let rlimit = if wl_total <= wtotal.count + write.num {
        wl_total
    } else {
        wtotal.count + write.num
    };
    let rtotal = blocking(u.read@, task, rlimit, rlimit);
    let warrival = if write.num == 1 && read.num == 0 {
        // already a single request, counts for arrival blocking
        bm_add(wtotal, rtotal)
    } else if write.num > 0 {
        // compute as if the task had a single write request
        let warr = blocking(u.write@, task, m - 1, 1);
        let rl = if m - 1 <= warr.count + 1 {
            m - 1
        } else {
            warr.count + 1
        };
        bm_add(warr, blocking(u.read@, task, rl, rl))
    } else {
        bm_zero()
    };
    let rarrival = if read.num == 1 && write.num == 0 {
        // already a single request, counts for arrival blocking
        bm_add(wtotal, rtotal)
    } else if read.num > 0 {
        // compute as if the task had a single read request
        let warr = blocking(u.write@, task, 1, 1);
        let rl = if warr.count <= 1 {
            warr.count
        } else {
            1int
        };
        bm_add(warr, blocking(u.read@, task, rl, rl))
    } else {
        bm_zero()
    };
    let warrival = bm_add(
        warrival,
        if write.num > 0 {
            BoundModel { length: write.length as int, count: 1 }
        } else {
            bm_zero()
        },
    );
    let rarrival = bm_add(
        rarrival,
        if read.num > 0 {
            BoundModel { length: read.length as int, count: 1 }
        } else {
            bm_zero()
        },
    );
    (bm_add(rtotal, wtotal), bm_add(rarrival, warrival))
}

/// The CRW-OMLP results over the first `upto` resources: totals summed,
/// arrival terms maximized, resources the task does not use skipped.
pub open spec fn crw_pass_upto(
    own: Seq<RwPair<Request>>,
    us: Seq<RwPair<Vec<TaskRequest>>>,
    task: int,
    m: int,
    upto: int,
) -> ObliviousModel
    decreases upto,
{
    if upto <= 0 {
        ObliviousModel { arrival: bm_zero(), total: bm_zero() }
    } else {
        let prev = crw_pass_upto(own, us, task, m, upto - 1);
        if own[upto - 1].read.num == 0 && own[upto - 1].write.num == 0 {
            prev
        } else {
            let terms = crw_terms(own[upto - 1], us[upto - 1], task, m);
            ObliviousModel {
                total: bm_add(prev.total, terms.0),
                arrival: bm_max(prev.arrival, terms.1),
            }
        }
    }
}

/// Computes the CRW-OMLP total and arrival terms for one resource that
/// the task uses, from its own request pair and the resource's sorted
/// usage views.
fn crw_resource(own: RwPair<Request>, pair: &RwPair<Vec<TaskRequest>>, task: usize, m: usize) -> (out: (
    Bound,
    Bound,
))
    requires
        2 <= m <= 1024,
        req_modest(own.read),
        req_modest(own.write),
        sorted_by_length_desc(pair.read@),
        distinct_tasks(pair.read@),
        sorted_by_length_desc(pair.write@),
        distinct_tasks(pair.write@),
        forall|i: int| 0 <= i < pair.read@.len() ==> req_modest((#[trigger] pair.read@[i]).req),
        forall|i: int| 0 <= i < pair.write@.len() ==> req_modest((#[trigger] pair.write@[i]).req),
    ensures
        out.0@ == crw_terms(own, *pair, task as int, m as int).0,
        out.1@ == crw_terms(own, *pair, task as int, m as int).1,
        out.0.count <= 0x10_0000,
        out.0.length <= 0x100_0000_0000,
        out.1.count <= 0x10_0000,
        out.1.length <= 0x100_0000_0000,
{
    let read = own.read;
    let write = own.write;
    proof {
        lemma_mul_le(write.num as int, m - 1, 256, 1023);
    }
    let wlimits = Limits { total: read.num + write.num * (m - 1), per_task: read.num + write.num };
    proof {
        lemma_blocking_bounds(
            pair.write@,
            task as int,
            wlimits.total as int,
            wlimits.per_task as int,
            0x10_0000,
        );
        lemma_mul_le(wlimits.total as int, 0x10_0000, 0x40100, 0x10_0000);
    }
    let wtotal = pair.write.bound_blocking(task, wlimits);

    let rlimit = if wlimits.total <= wtotal.count + write.num {
        wlimits.total
    } else {
        wtotal.count + write.num
    };
    proof {
        lemma_blocking_bounds(pair.read@, task as int, rlimit as int, rlimit as int, 0x10_0000);
        lemma_mul_le(rlimit as int, 0x10_0000, 0x40100, 0x10_0000);
    }
    let rtotal = pair.read.bound_blocking(task, Limits { total: rlimit, per_task: rlimit });

    let warrival: Bound;
    if write.num == 1 && read.num == 0 {
        // already a single request, counts for arrival blocking
        warrival = wtotal.add(rtotal);
    } else if write.num > 0 {
        // compute as if the task had a single write request
        proof {
            lemma_blocking_bounds(pair.write@, task as int, m - 1, 1, 0x10_0000);
            lemma_mul_le(m - 1, 0x10_0000, 1023, 0x10_0000);
        }
        let warr = pair.write.bound_blocking(task, Limits { total: m - 1, per_task: 1 });
        let rl = if m - 1 <= warr.count + 1 {
            m - 1
        } else {
            warr.count + 1
        };
        proof {
            lemma_blocking_bounds(pair.read@, task as int, rl as int, rl as int, 0x10_0000);
            lemma_mul_le(rl as int, 0x10_0000, 1024, 0x10_0000);
        }
        warrival = warr.add(pair.read.bound_blocking(task, Limits { total: rl, per_task: rl }));
    } else {
        // the task issues no writes, so no write arrival blocking
        warrival = Bound::zero();
    }

    let rarrival: Bound;
    if read.num == 1 && write.num == 0 {
        // already a single request, counts for arrival blocking
        rarrival = wtotal.add(rtotal);
    } else if read.num > 0 {
        // compute as if the task had a single read request
        proof {
            lemma_blocking_bounds(pair.write@, task as int, 1, 1, 0x10_0000);
        }
        let warr = pair.write.bound_blocking(task, Limits { total: 1, per_task: 1 });
        let rl = if warr.count <= 1 {
            warr.count
        } else {
            1
        };
        proof {
            lemma_blocking_bounds(pair.read@, task as int, rl as int, rl as int, 0x10_0000);
        }
        rarrival = warr.add(pair.read.bound_blocking(task, Limits { total: rl, per_task: rl }));
    } else {
        // the task issues no reads, so no read arrival blocking
        rarrival = Bound::zero();
    }

    // count our own requests too

    let warrival = if write.num > 0 {
        warrival.add(Bound::new(write.length))
    } else {
        warrival.add(Bound::zero())
    };

    let rarrival = if read.num > 0 {
        rarrival.add(Bound::new(read.length))
    } else {
        rarrival.add(Bound::zero())
    };

    (rtotal.add(wtotal), rarrival.add(warrival))
}

proof fn lemma_crw_pass_same(
    sys: &System<Rw>,
    us1: Seq<RwPair<Vec<TaskRequest>>>,
    us2: Seq<RwPair<Vec<TaskRequest>>>,
    task: int,
    m: int,
    upto: int,
)
    requires
        rw_usages_valid(sys, us1),
        rw_usages_valid(sys, us2),
        m >= 1,
        0 <= upto <= sys.spec_num_rsrc(),
    ensures
        crw_pass_upto(sys.spec_reqs()[task], us1, task, m, upto) == crw_pass_upto(
            sys.spec_reqs()[task],
            us2,
            task,
            m,
            upto,
        ),
    decreases upto,
{
    if upto > 0 {
        lemma_crw_pass_same(sys, us1, us2, task, m, upto - 1);
        let r = upto - 1;
        let own = sys.spec_reqs()[task][r];
        let rcol = sys.col(r).map_values(|p: RwPair<Request>| p.read);
        let wcol = sys.col(r).map_values(|p: RwPair<Request>| p.write);
        let wl_total = own.read.num + own.write.num * (m - 1);
        let wl_per = own.read.num + own.write.num;
        assert(own.write.num * (m - 1) >= 0) by (nonlinear_arith)
            requires own.write.num >= 0 && m >= 1;
        lemma_blocking_same_view(wcol, us1[r].write@, us2[r].write@, task, wl_total, wl_per);
        let wtotal = blocking(us1[r].write@, task, wl_total, wl_per);
        lemma_blocking_nonneg(us1[r].write@, task, wl_total, wl_per);
        let rlimit = if wl_total <= wtotal.count + own.write.num {
            wl_total
        } else {
            wtotal.count + own.write.num
        };
        lemma_blocking_same_view(rcol, us1[r].read@, us2[r].read@, task, rlimit, rlimit);
        lemma_blocking_same_view(wcol, us1[r].write@, us2[r].write@, task, m - 1, 1);
        let warr1 = blocking(us1[r].write@, task, m - 1, 1);
        lemma_blocking_nonneg(us1[r].write@, task, m - 1, 1);
        let rl1 = if m - 1 <= warr1.count + 1 {
            m - 1
        } else {
            warr1.count + 1
        };
        lemma_blocking_same_view(rcol, us1[r].read@, us2[r].read@, task, rl1, rl1);
        lemma_blocking_same_view(wcol, us1[r].write@, us2[r].write@, task, 1, 1);
        let warr2 = blocking(us1[r].write@, task, 1, 1);
        lemma_blocking_nonneg(us1[r].write@, task, 1, 1);
        let rl2 = if warr2.count <= 1 {
            warr2.count
        } else {
            1int
        };
        lemma_blocking_same_view(rcol, us1[r].read@, us2[r].read@, task, rl2, rl2);
    }
}

/// The CRW-OMLP analysis is a function of the system alone: any two valid
/// families of sorted usage views yield the same result for every task,
/// whatever order tied requests were put in.
pub proof fn lemma_crw_pass_deterministic(
    an: &SingleClusterOm,
    task: int,
    sys: &System<Rw>,
    us1: Seq<RwPair<Vec<TaskRequest>>>,
    us2: Seq<RwPair<Vec<TaskRequest>>>,
)
    requires
        rw_usages_valid(sys, us1),
        rw_usages_valid(sys, us2),
        an.spec_num_cpus() >= 1,
    ensures
        ObliviousAnalyzer::<Rw>::pass_spec(an, task, sys, us1) == ObliviousAnalyzer::<
            Rw,
        >::pass_spec(an, task, sys, us2),
{
    if an.spec_num_cpus() != 1 {
        lemma_crw_pass_same(sys, us1, us2, task, an.spec_num_cpus(), sys.spec_num_rsrc());
    }
}

/// Implements the analysis for CRW-OMLP, specialized for the
/// single-cluster case.
impl ObliviousAnalyzer<Rw> for SingleClusterOm {
    open spec fn admissible(&self, sys: &System<Rw>) -> bool {
        sys_modest(sys) && 1 <= self.spec_num_cpus() <= 1024
    }

    open spec fn pass_spec(
        &self,
        task: int,
        sys: &System<Rw>,
        by_rsrc: Seq<RwPair<Vec<TaskRequest>>>,
    ) -> ObliviousModel {
        if self.spec_num_cpus() == 1 {
            // no interference for single-cpu execution
            ObliviousModel { arrival: bm_zero(), total: bm_zero() }
        } else {
            crw_pass_upto(
                sys.spec_reqs()[task],
                by_rsrc,
                task,
                self.spec_num_cpus(),
                sys.spec_num_rsrc(),
            )
        }
    }

    open spec fn post_spec(&self, sys: &System<Rw>, data: Seq<ObliviousData>) -> Seq<
        ObliviousModel,
    > {
        donated(sys.spec_tasks(), data)
    }

    fn pass(&self, task: usize, sys: &System<Rw>, by_rsrc: &Vec<RwPair<Vec<TaskRequest>>>) -> (d:
        ObliviousData) {
        let m = self.num_cpus;
        if m == 1 {
            // no interference for single-cpu execution
            return ObliviousData::zero();
        }

        let own_row = sys.reqs_by(task);
        let mut total = Bound::zero();
        let mut arrival = Bound::zero();
        let mut r: usize = 0;
        while r < by_rsrc.len()
            invariant
                sys.wf(),
                sys_modest(sys),
                task < sys.spec_tasks().len(),
                2 <= m <= 1024,
                m == self.spec_num_cpus(),
                by_rsrc@.len() == sys.spec_num_rsrc(),
                forall|j: int|
                    0 <= j < sys.spec_num_rsrc() ==> Rw::usage_for(
                        sys.col(j),
                        #[trigger] by_rsrc@[j],
                    ),
                forall|j: int|
                    0 <= j < sys.spec_num_rsrc() ==> (#[trigger] by_rsrc@[j]).sorted_spec(),
                own_row@ == sys.spec_reqs()[task as int],
                r <= by_rsrc@.len(),
                crw_pass_upto(own_row@, by_rsrc@, task as int, m as int, r as int)
                    == (ObliviousModel { arrival: arrival@, total: total@ }),
                total.count <= r * 0x10_0000,
                total.length <= r * 0x100_0000_0000,
                arrival.count <= 0x10_0000,
                arrival.length <= 0x100_0000_0000,
            decreases by_rsrc@.len() - r,
        {
            let own = own_row[r];
            if own.read.num > 0 || own.write.num > 0 {
                let pair = &by_rsrc[r];
                proof {
                    lemma_rw_usage_modest(sys, r as int, by_rsrc@[r as int]);
                    assert(Rw::stored_modest(sys.spec_reqs()[task as int][r as int]));
                    assert((r + 1) * 0x10_0000 == r * 0x10_0000 + 0x10_0000) by (nonlinear_arith);
                    assert((r + 1) * 0x100_0000_0000 == r * 0x100_0000_0000 + 0x100_0000_0000)
                        by (nonlinear_arith);
                }
                let terms = crw_resource(own, pair, task, m);
                total = total.add(terms.0);
                arrival = arrival.max_of(terms.1);
            }
            r = r + 1;
        }
        proof {
            lemma_mul_le(r as int, 0x10_0000, 1024, 0x10_0000);
            lemma_mul_le(r as int, 0x100_0000_0000, 1024, 0x100_0000_0000);
        }
        ObliviousData { total, arrival }
    }

    proof fn pass_deterministic(
        &self,
        task: int,
        sys: &System<Rw>,
        us1: Seq<RwPair<Vec<TaskRequest>>>,
        us2: Seq<RwPair<Vec<TaskRequest>>>,
    ) {
        crate::rsrc::lemma_rw_usages_valid(sys, us1);
        crate::rsrc::lemma_rw_usages_valid(sys, us2);
        lemma_crw_pass_deterministic(self, task, sys, us1, us2);
    }

    fn post(&self, sys: &System<Rw>, out: &mut Vec<ObliviousData>) {
        post_donation(sys, out);
    }

    fn name(&self) -> &'static str {
        "CRW-OMLP"
    }
}

} // verus!
