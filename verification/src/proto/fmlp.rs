use vstd::prelude::*;

use crate::rsrc::{
    System, Mutex, Request, TaskRequest, RequestSet, usage_matches, sys_modest,
    mutex_usages_valid, lemma_mutex_usage_modest,
};
use crate::sharing::{
    ObliviousAnalyzer, ObliviousData, ObliviousModel, Bound, BoundModel, BoundBlocking, Limits,
    bm_zero, bm_add, blocking, lemma_blocking_bounds, lemma_blocking_same_view, data_modest,
};

verus! {

/// Block, Leontyev, Brandenburg and Anderson's _Flexible Multiprocessor
/// Locking Protocol_ (FMLP), with short requests only: every other task
/// may block this one at most once per request it itself makes.
pub struct FlexibleMulti;

/// The FMLP interference term for one resource: nothing if the task does
/// not use it, otherwise the greedy bound with a budget of one request
/// from each of the other `n - 1` tasks, per own request.
pub open spec fn fmlp_term(own: Request, u: Vec<TaskRequest>, task: int, n: int) -> BoundModel {
    if own.num == 0 {
        bm_zero()
    } else {
        blocking(u@, task, (n - 1) * own.num, own.num as int)
    }
}

/// The FMLP interference terms of the first `upto` resources, summed.
pub open spec fn fmlp_sum(
    own: Seq<Request>,
    us: Seq<Vec<TaskRequest>>,
    task: int,
    n: int,
    upto: int,
) -> BoundModel
    decreases upto,
{
    if upto <= 0 {
        bm_zero()
    } else {
        bm_add(fmlp_sum(own, us, task, n, upto - 1), fmlp_term(own[upto - 1], us[upto - 1], task, n))
    }
}

proof fn lemma_fmlp_sum_same(
    sys: &System<Mutex>,
    us1: Seq<Vec<TaskRequest>>,
    us2: Seq<Vec<TaskRequest>>,
    task: int,
    n: int,
    upto: int,
)
    requires
        mutex_usages_valid(sys, us1),
        mutex_usages_valid(sys, us2),
        0 <= upto <= sys.spec_num_rsrc(),
    ensures
        fmlp_sum(sys.spec_reqs()[task], us1, task, n, upto) == fmlp_sum(
            sys.spec_reqs()[task],
            us2,
            task,
            n,
            upto,
        ),
    decreases upto,
{
    if upto > 0 {
        lemma_fmlp_sum_same(sys, us1, us2, task, n, upto - 1);
        let own = sys.spec_reqs()[task][upto - 1];
        if own.num != 0 {
            lemma_blocking_same_view(
                sys.col(upto - 1),
                us1[upto - 1]@,
                us2[upto - 1]@,
                task,
                (n - 1) * own.num,
                own.num as int,
            );
        }
    }
}

/// The FMLP analysis is a function of the system alone: any two valid
/// families of sorted usage views yield the same result for every task,
/// whatever order tied requests were put in.
pub proof fn lemma_fmlp_pass_deterministic(
    an: &FlexibleMulti,
    task: int,
    sys: &System<Mutex>,
    us1: Seq<Vec<TaskRequest>>,
    us2: Seq<Vec<TaskRequest>>,
)
    requires
        mutex_usages_valid(sys, us1),
        mutex_usages_valid(sys, us2),
    ensures
        an.pass_spec(task, sys, us1) == an.pass_spec(task, sys, us2),
{
    lemma_fmlp_sum_same(
        sys,
        us1,
        us2,
        task,
        sys.spec_tasks().len() as int,
        sys.spec_num_rsrc(),
    );
}

/// Implements the analysis for FMLP with short requests only.
impl ObliviousAnalyzer<Mutex> for FlexibleMulti {
    open spec fn admissible(&self, sys: &System<Mutex>) -> bool {
        sys_modest(sys)
    }

    open spec fn pass_spec(
        &self,
        task: int,
        sys: &System<Mutex>,
        by_rsrc: Seq<Vec<TaskRequest>>,
    ) -> ObliviousModel {
        ObliviousModel {
            arrival: bm_zero(),
            total: fmlp_sum(
                sys.spec_reqs()[task],
                by_rsrc,
                task,
                sys.spec_tasks().len() as int,
                sys.spec_num_rsrc(),
            ),
        }
    }

    open spec fn post_spec(&self, sys: &System<Mutex>, data: Seq<ObliviousData>) -> Seq<
        ObliviousModel,
    > {
        data.map_values(|d: ObliviousData| d@)
    }

    fn pass(&self, task: usize, sys: &System<Mutex>, by_rsrc: &Vec<Vec<TaskRequest>>) -> (d:
        ObliviousData) {
        let n = sys.num_tasks();
        let own_row = sys.reqs_by(task);
        let mut acc = Bound::zero();
        let mut r: usize = 0;
        while r < by_rsrc.len()
            invariant
                sys.wf(),
                sys_modest(sys),
                task < n,
                n == sys.spec_tasks().len(),
                by_rsrc@.len() == sys.spec_num_rsrc(),
                forall|j: int|
                    0 <= j < sys.spec_num_rsrc() ==> usage_matches(
                        sys.col(j),
                        (#[trigger] by_rsrc@[j])@,
                    ),
                forall|j: int|
                    0 <= j < sys.spec_num_rsrc() ==> (#[trigger] by_rsrc@[j]).sorted_spec(),
                own_row@ == sys.spec_reqs()[task as int],
                r <= by_rsrc@.len(),
                acc@ == fmlp_sum(own_row@, by_rsrc@, task as int, n as int, r as int),
                acc.count <= r * 0x40000,
                acc.length <= r * 0x40_0000_0000,
            decreases by_rsrc@.len() - r,
        {
            let req = own_row[r];
            proof {
                lemma_mutex_usage_modest(sys, r as int, by_rsrc[r as int]);
            }
            let term: Bound;
            if req.num == 0 {
                term = Bound::zero();
            } else {
                proof {
                    lemma_blocking_bounds(
                        by_rsrc@[r as int]@,
                        task as int,
                        (n - 1) * req.num,
                        req.num as int,
                        0x10_0000,
                    );
                    assert((n - 1) * req.num <= 1023 * 256) by (nonlinear_arith)
                        requires n <= 1024 && 1 <= n && req.num <= 256 && req.num >= 0;
                    assert((n - 1) * req.num * 0x10_0000 <= 1023 * 256 * 0x10_0000)
                        by (nonlinear_arith)
                        requires 0 <= (n - 1) * req.num <= 1023 * 256;
                }
                let limits = Limits { total: n - 1, per_task: 1 }.mul(req.num);
                term = by_rsrc[r].bound_blocking(task, limits);
            }
            proof {
                assert(term.count <= 0x40000);
                assert(term.length <= 0x40_0000_0000);
                assert((r + 1) * 0x40000 == r * 0x40000 + 0x40000) by (nonlinear_arith);
                assert((r + 1) * 0x40_0000_0000 == r * 0x40_0000_0000 + 0x40_0000_0000)
                    by (nonlinear_arith);
            }
            acc = acc.add(term);
            r = r + 1;
        }
        proof {
            assert(r * 0x40000 <= 1024 * 0x40000) by (nonlinear_arith)
                requires 0 <= r <= 1024;
            assert(r * 0x40_0000_0000 <= 1024 * 0x40_0000_0000) by (nonlinear_arith)
                requires 0 <= r <= 1024;
        }
        ObliviousData::from_total(acc)
    }

    proof fn pass_deterministic(
        &self,
        task: int,
        sys: &System<Mutex>,
        us1: Seq<Vec<TaskRequest>>,
        us2: Seq<Vec<TaskRequest>>,
    ) {
        crate::rsrc::lemma_mutex_usages_valid(sys, us1);
        crate::rsrc::lemma_mutex_usages_valid(sys, us2);
        lemma_fmlp_pass_deterministic(self, task, sys, us1, us2);
    }

    fn post(&self, _sys: &System<Mutex>, _out: &mut Vec<ObliviousData>) {
    }

    fn name(&self) -> &'static str {
        "FMLP"
    }
}

} // verus!
