use vstd::prelude::*;

use crate::rsrc::{
    System, Mutex, Rw, RwPair, Request, TaskRequest, RequestKind, RequestSet, usage_matches,
    sys_modest, mutex_usages_valid, rw_usages_valid, lemma_mutex_usage_modest,
    lemma_rw_usage_modest,
};
use crate::sharing::{
    ObliviousAnalyzer, ObliviousData, ObliviousModel, Bound, BoundModel, BoundBlocking, Limits,
    bm_zero, bm_add, bm_scale, bm_max, blocking, lemma_blocking_bounds, lemma_blocking_same_view,
    lemma_mul_le, data_modest,
};

verus! {

/// The global version of Ahmed and Anderson's _Optimal Locking Protocol
/// for FIFO_ family (OLP-F).
pub struct OptimalFIFO {
    num_cpus: usize,
}

impl OptimalFIFO {
    /// The number of CPUs this analyzer was set up with.
    pub closed spec fn spec_num_cpus(&self) -> int {
        self.num_cpus as int
    }

    /// Constructs a new instance of `OptimalFIFO` with the given number of
    /// CPUs.
    pub fn new(num_cpus: usize) -> (s: Self)
        ensures
            s.spec_num_cpus() == num_cpus,
    {
        OptimalFIFO { num_cpus }
    }
}

/// The OLP-F interference term for one resource: nothing if the task does
/// not use it, otherwise the greedy bound with a budget of one request
/// from each of the `m - 1` other CPUs, per own request.
pub open spec fn olpf_term(own: Request, u: Vec<TaskRequest>, task: int, m: int) -> BoundModel {
    if own.num == 0 {
        bm_zero()
    } else {
        blocking(u@, task, (m - 1) * own.num, own.num as int)
    }
}

/// The OLP-F interference terms of the first `upto` resources, summed.
pub open spec fn olpf_sum(
    own: Seq<Request>,
    us: Seq<Vec<TaskRequest>>,
    task: int,
    m: int,
    upto: int,
) -> BoundModel
    decreases upto,
{
    if upto <= 0 {
        bm_zero()
    } else {
        bm_add(olpf_sum(own, us, task, m, upto - 1), olpf_term(own[upto - 1], us[upto - 1], task, m))
    }
}

proof fn lemma_olpf_sum_same(
    sys: &System<Mutex>,
    us1: Seq<Vec<TaskRequest>>,
    us2: Seq<Vec<TaskRequest>>,
    task: int,
    m: int,
    upto: int,
)
    requires
        mutex_usages_valid(sys, us1),
        mutex_usages_valid(sys, us2),
        0 <= upto <= sys.spec_num_rsrc(),
    ensures
        olpf_sum(sys.spec_reqs()[task], us1, task, m, upto) == olpf_sum(
            sys.spec_reqs()[task],
            us2,
            task,
            m,
            upto,
        ),
    decreases upto,
{
    if upto > 0 {
        lemma_olpf_sum_same(sys, us1, us2, task, m, upto - 1);
        let own = sys.spec_reqs()[task][upto - 1];
        if own.num != 0 {
            lemma_blocking_same_view(
                sys.col(upto - 1),
                us1[upto - 1]@,
                us2[upto - 1]@,
                task,
                (m - 1) * own.num,
                own.num as int,
            );
        }
    }
}

/// The OLP-F analysis is a function of the system alone: any two valid
/// families of sorted usage views yield the same result for every task,
/// whatever order tied requests were put in.
pub proof fn lemma_olpf_pass_deterministic(
    an: &OptimalFIFO,
    task: int,
    sys: &System<Mutex>,
    us1: Seq<Vec<TaskRequest>>,
    us2: Seq<Vec<TaskRequest>>,
)
    requires
        mutex_usages_valid(sys, us1),
        mutex_usages_valid(sys, us2),
    ensures
        ObliviousAnalyzer::<Mutex>::pass_spec(an, task, sys, us1)
            == ObliviousAnalyzer::<Mutex>::pass_spec(an, task, sys, us2),
{
    lemma_olpf_sum_same(sys, us1, us2, task, an.spec_num_cpus(), sys.spec_num_rsrc());
}

/// Implements the analysis for OLP-F: every other scheduled task may block
/// once per request, bounded by concurrency rather than task count.
impl ObliviousAnalyzer<Mutex> for OptimalFIFO {
    open spec fn admissible(&self, sys: &System<Mutex>) -> bool {
        sys_modest(sys) && 1 <= self.spec_num_cpus() <= 1024
    }

    open spec fn pass_spec(
        &self,
        task: int,
        sys: &System<Mutex>,
        by_rsrc: Seq<Vec<TaskRequest>>,
    ) -> ObliviousModel {
        ObliviousModel {
            arrival: bm_zero(),
            total: olpf_sum(
                sys.spec_reqs()[task],
                by_rsrc,
                task,
                self.spec_num_cpus(),
                sys.spec_num_rsrc(),
            ),
        }
    }

    open spec fn post_spec(&self, sys: &System<Mutex>, data: Seq<ObliviousData>) -> Seq<
        ObliviousModel,
    > {
        data.map_values(|d: ObliviousData| d@)
    }

    fn pass(&self, task: usize, sys: &System<Mutex>, by_rsrc: &Vec<Vec<TaskRequest>>) -> (d:
        ObliviousData) {
        let m = self.num_cpus;
        let own_row = sys.reqs_by(task);
        let mut acc = Bound::zero();
        let mut r: usize = 0;
        while r < by_rsrc.len()
            invariant
                sys.wf(),
                sys_modest(sys),
                task < sys.spec_tasks().len(),
                1 <= m <= 1024,
                m == self.spec_num_cpus(),
                by_rsrc@.len() == sys.spec_num_rsrc(),
                forall|j: int|
                    0 <= j < sys.spec_num_rsrc() ==> usage_matches(
                        sys.col(j),
                        (#[trigger] by_rsrc@[j])@,
                    ),
                forall|j: int|
                    0 <= j < sys.spec_num_rsrc() ==> (#[trigger] by_rsrc@[j]).sorted_spec(),
                own_row@ == sys.spec_reqs()[task as int],
                r <= by_rsrc@.len(),
                acc@ == olpf_sum(own_row@, by_rsrc@, task as int, m as int, r as int),
                acc.count <= r * 0x10_0000,
                acc.length <= r * 0x100_0000_0000,
            decreases by_rsrc@.len() - r,
        {
            let req = own_row[r];
            proof {
                lemma_mutex_usage_modest(sys, r as int, by_rsrc[r as int]);
            }
            let term: Bound;
            if req.num == 0 {
                term = Bound::zero();
            } else {
                proof {
                    lemma_mul_le(m - 1, req.num as int, 1023, 256);
                    lemma_blocking_bounds(
                        by_rsrc@[r as int]@,
                        task as int,
                        (m - 1) * req.num,
                        req.num as int,
                        0x10_0000,
                    );
                    lemma_mul_le((m - 1) * req.num, 0x10_0000, (1023 * 256) as int, 0x10_0000);
                }
                let limits = Limits { total: m - 1, per_task: 1 }.mul(req.num);
                term = by_rsrc[r].bound_blocking(task, limits);
            }
            proof {
                assert((r + 1) * 0x10_0000 == r * 0x10_0000 + 0x10_0000) by (nonlinear_arith);
                assert((r + 1) * 0x100_0000_0000 == r * 0x100_0000_0000 + 0x100_0000_0000)
                    by (nonlinear_arith);
            }
            acc = acc.add(term);
            r = r + 1;
        }
        proof {
            lemma_mul_le(r as int, 0x10_0000, 1024, 0x10_0000);
            lemma_mul_le(r as int, 0x100_0000_0000, 1024, 0x100_0000_0000);
        }
        ObliviousData::from_total(acc)
    }

    proof fn pass_deterministic(
        &self,
        task: int,
        sys: &System<Mutex>,
        us1: Seq<Vec<TaskRequest>>,
        us2: Seq<Vec<TaskRequest>>,
    ) {
        crate::rsrc::lemma_mutex_usages_valid(sys, us1);
        crate::rsrc::lemma_mutex_usages_valid(sys, us2);
        lemma_olpf_pass_deterministic(self, task, sys, us1, us2);
    }

    fn post(&self, _sys: &System<Mutex>, _out: &mut Vec<ObliviousData>) {
    }

    fn name(&self) -> &'static str {
        "OLP-F"
    }
}

/// The RW-OLP-F interference term for one resource and one task.
///
/// `rbound` caps the interference of a single competing read. A reader is
/// delayed by up to its full write count of writers plus one shortened
/// read batch per own read. A writer is delayed under one of two
/// accountings — a FIFO write queue that is not full admits one reader
/// batch per waiting writer, a full one admits one writer fewer but one
/// reader batch more — and neither dominates the other, so the larger of
/// the two is taken.
pub open spec fn olpf_rw_term(
    own: RwPair<Request>,
    u: RwPair<Vec<TaskRequest>>,
    task: int,
    m: int,
) -> BoundModel {
    let read = own.read;
    let write = own.write;
    let rbound = blocking(u.read@, task, 1, 1);
    let rtotal = if read.num > 0 {
        bm_add(
            blocking(u.write@, task, write.num as int, write.num as int),
            if rbound.length > 0 {
                bm_scale(
                    read.num as int,
                    BoundModel { length: rbound.length - 1, count: rbound.count },
                )
            } else {
                bm_zero()
            },
        )
    } else {
        bm_zero()
    };
    let wsingle = if write.num > 0 {
        let case1 = blocking(u.write@, task, m - 1, 1);
        if case1.count < m - 1 || rbound.length == 0 {
            bm_add(case1, bm_scale(case1.count + 1, rbound))
        } else {
            let case2 = blocking(u.write@, task, m - 2, 1);
            bm_max(
                bm_add(case1, bm_scale(m - 2, rbound)),
                bm_add(case2, bm_scale(m - 1, rbound)),
            )
        }
    } else {
        bm_zero()
    };
    bm_add(rtotal, bm_scale(write.num as int, wsingle))
}

/// The RW-OLP-F interference terms of the first `upto` resources, summed.
pub open spec fn olpf_rw_sum(
    own: Seq<RwPair<Request>>,
    us: Seq<RwPair<Vec<TaskRequest>>>,
    task: int,
    m: int,
    upto: int,
) -> BoundModel
    decreases upto,
{
    if upto <= 0 {
        bm_zero()
    } else {
        bm_add(
            olpf_rw_sum(own, us, task, m, upto - 1),
            olpf_rw_term(own[upto - 1], us[upto - 1], task, m),
        )
    }
}

proof fn lemma_olpf_rw_sum_same(
    sys: &System<Rw>,
    us1: Seq<RwPair<Vec<TaskRequest>>>,
    us2: Seq<RwPair<Vec<TaskRequest>>>,
    task: int,
    m: int,
    upto: int,
)
    requires
        rw_usages_valid(sys, us1),
        rw_usages_valid(sys, us2),
        0 <= upto <= sys.spec_num_rsrc(),
    ensures
        olpf_rw_sum(sys.spec_reqs()[task], us1, task, m, upto) == olpf_rw_sum(
            sys.spec_reqs()[task],
            us2,
            task,
            m,
            upto,
        ),
    decreases upto,
{
    if upto > 0 {
        lemma_olpf_rw_sum_same(sys, us1, us2, task, m, upto - 1);
        let r = upto - 1;
        let own = sys.spec_reqs()[task][r];
        let rcol = sys.col(r).map_values(|p: RwPair<Request>| p.read);
        let wcol = sys.col(r).map_values(|p: RwPair<Request>| p.write);
        lemma_blocking_same_view(rcol, us1[r].read@, us2[r].read@, task, 1, 1);
        lemma_blocking_same_view(
            wcol,
            us1[r].write@,
            us2[r].write@,
            task,
            own.write.num as int,
            own.write.num as int,
        );
        lemma_blocking_same_view(wcol, us1[r].write@, us2[r].write@, task, m - 1, 1);
        lemma_blocking_same_view(wcol, us1[r].write@, us2[r].write@, task, m - 2, 1);
    }
}

/// The RW-OLP-F analysis is a function of the system alone: any two valid
/// families of sorted usage views yield the same result for every task,
/// whatever order tied requests were put in.
pub proof fn lemma_olpf_rw_pass_deterministic(
    an: &OptimalFIFO,
    task: int,
    sys: &System<Rw>,
    us1: Seq<RwPair<Vec<TaskRequest>>>,
    us2: Seq<RwPair<Vec<TaskRequest>>>,
)
    requires
        rw_usages_valid(sys, us1),
        rw_usages_valid(sys, us2),
    ensures
        ObliviousAnalyzer::<Rw>::pass_spec(an, task, sys, us1) == ObliviousAnalyzer::<
            Rw,
        >::pass_spec(an, task, sys, us2),
{
    if an.spec_num_cpus() > 1 {
        lemma_olpf_rw_sum_same(sys, us1, us2, task, an.spec_num_cpus(), sys.spec_num_rsrc());
    }
}

/// Implements the analysis for RW-OLP-F.
impl ObliviousAnalyzer<Rw> for OptimalFIFO {
    open spec fn admissible(&self, sys: &System<Rw>) -> bool {
        sys_modest(sys) && self.spec_num_cpus() <= 1024
    }

    open spec fn pass_spec(
        &self,
        task: int,
        sys: &System<Rw>,
        by_rsrc: Seq<RwPair<Vec<TaskRequest>>>,
    ) -> ObliviousModel {
        ObliviousModel {
            arrival: bm_zero(),
            total: if self.spec_num_cpus() <= 1 {
                bm_zero()
            } else {
                olpf_rw_sum(
                    sys.spec_reqs()[task],
                    by_rsrc,
                    task,
                    self.spec_num_cpus(),
                    sys.spec_num_rsrc(),
                )
            },
        }
    }

    open spec fn post_spec(&self, sys: &System<Rw>, data: Seq<ObliviousData>) -> Seq<
        ObliviousModel,
    > {
        data.map_values(|d: ObliviousData| d@)
    }

    fn pass(&self, task: usize, sys: &System<Rw>, by_rsrc: &Vec<RwPair<Vec<TaskRequest>>>) -> (d:
        ObliviousData) {
        let m = self.num_cpus;
        if m <= 1 {
            return ObliviousData::zero();
        }

        let own_row = sys.reqs_by(task);
        let mut acc = Bound::zero();
        let mut r: usize = 0;
        while r < by_rsrc.len()
            invariant
                sys.wf(),
                sys_modest(sys),
                task < sys.spec_tasks().len(),
                2 <= m <= 1024,
                m == self.spec_num_cpus(),
                by_rsrc@.len() == sys.spec_num_rsrc(),
                forall|j: int|
                    0 <= j < sys.spec_num_rsrc() ==> Rw::usage_for(
                        sys.col(j),
                        #[trigger] by_rsrc@[j],
                    ),
                forall|j: int|
                    0 <= j < sys.spec_num_rsrc() ==> (#[trigger] by_rsrc@[j]).sorted_spec(),
                own_row@ == sys.spec_reqs()[task as int],
                r <= by_rsrc@.len(),
                acc@ == olpf_rw_sum(own_row@, by_rsrc@, task as int, m as int, r as int),
                acc.count <= r * 0x10_0000,
                acc.length <= r * 0x100_0000_0000,
            decreases by_rsrc@.len() - r,
        {
            let own = own_row[r];
            let read = own.read;
            let write = own.write;
            let pair = &by_rsrc[r];
            proof {
                lemma_rw_usage_modest(sys, r as int, by_rsrc@[r as int]);
                lemma_blocking_bounds(pair.read@, task as int, 1, 1, 0x10_0000);
            }
            // maximum read bound
            let rbound = pair.read.bound_blocking(task, Limits { total: 1, per_task: 1 });

            let rtotal: Bound;
            if read.num > 0 {
                proof {
                    lemma_blocking_bounds(
                        pair.write@,
                        task as int,
                        write.num as int,
                        write.num as int,
                        0x10_0000,
                    );
                    lemma_mul_le(write.num as int, 0x10_0000, 256, 0x10_0000);
                    lemma_mul_le(rbound.count as int, read.num as int, 1, 256);
                    lemma_mul_le(rbound.length as int, read.num as int, 0x10_0000, 256);
                }
                let wpart = pair.write.bound_blocking(
                    task,
                    Limits { total: write.num, per_task: write.num },
                );
                let rpart = if rbound.length > 0 {
                    proof {
                        lemma_mul_le(rbound.length - 1, read.num as int, 0x10_0000, 256);
                    }
                    Bound { length: rbound.length - 1, count: rbound.count }.mul(read.num)
                } else {
                    Bound::zero()
                };
                rtotal = wpart.add(rpart);
            } else {
                rtotal = Bound::zero();
            }

            let wsingle: Bound;
            if write.num > 0 {
                proof {
                    lemma_blocking_bounds(pair.write@, task as int, m - 1, 1, 0x10_0000);
                    lemma_mul_le(m - 1, 0x10_0000, 1023, 0x10_0000);
                }
                let case1lim = Limits { total: m - 1, per_task: 1 };
                let case1 = pair.write.bound_blocking(task, case1lim);

                if case1.count < case1lim.total || rbound.length == 0 {
                    // not enough writers to fill the write queue, or no
                    // other readers
                    proof {
                        lemma_mul_le(rbound.count as int, case1.count as int + 1, 1, 1024);
                        lemma_mul_le(rbound.length as int, case1.count as int + 1, 0x10_0000, 1024);
                    }
                    wsingle = case1.add(rbound.mul(case1.count + 1));
                } else {
                    proof {
                        lemma_blocking_bounds(pair.write@, task as int, m - 2, 1, 0x10_0000);
                        lemma_mul_le(m - 2, 0x10_0000, 1023, 0x10_0000);
                        lemma_mul_le(rbound.count as int, m - 2, 1, 1024);
                        lemma_mul_le(rbound.length as int, m - 2, 0x10_0000, 1024);
                        lemma_mul_le(rbound.count as int, m - 1, 1, 1024);
                        lemma_mul_le(rbound.length as int, m - 1, 0x10_0000, 1024);
                    }
                    let case2lim = Limits { total: m - 2, per_task: 1 };
                    let case2 = pair.write.bound_blocking(task, case2lim);

                    wsingle = case1.add(rbound.mul(m - 2)).max_of(case2.add(rbound.mul(m - 1)));
                }
            } else {
                wsingle = Bound::zero();
            }

            proof {
                lemma_mul_le(wsingle.count as int, write.num as int, 0x800, 256);
                lemma_mul_le(wsingle.length as int, write.num as int, 0x8000_0000, 256);
                assert((r + 1) * 0x10_0000 == r * 0x10_0000 + 0x10_0000) by (nonlinear_arith);
                assert((r + 1) * 0x100_0000_0000 == r * 0x100_0000_0000 + 0x100_0000_0000)
                    by (nonlinear_arith);
            }
            let term = rtotal.add(wsingle.mul(write.num));
            acc = acc.add(term);
            r = r + 1;
        }
        proof {
            lemma_mul_le(r as int, 0x10_0000, 1024, 0x10_0000);
            lemma_mul_le(r as int, 0x100_0000_0000, 1024, 0x100_0000_0000);
        }
        ObliviousData::from_total(acc)
    }

    proof fn pass_deterministic(
        &self,
        task: int,
        sys: &System<Rw>,
        us1: Seq<RwPair<Vec<TaskRequest>>>,
        us2: Seq<RwPair<Vec<TaskRequest>>>,
    ) {
        crate::rsrc::lemma_rw_usages_valid(sys, us1);
        crate::rsrc::lemma_rw_usages_valid(sys, us2);
        lemma_olpf_rw_pass_deterministic(self, task, sys, us1, us2);
    }

    fn post(&self, _sys: &System<Rw>, _out: &mut Vec<ObliviousData>) {
    }

    fn name(&self) -> &'static str {
        "RW-OLP-F"
    }
}

} // verus!
