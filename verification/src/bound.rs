//! Schedulability bounds and tests.

use vstd::prelude::*;

use crate::task::Task;
use crate::sharing::ObliviousData;

verus! {

#[verifier::external_type_specification]
#[verifier::external_body]
/// An arbitrary-precision rational number of the dashu crate, carried
/// opaquely: utilizations are summed and compared exactly through it.
pub struct ExRelaxed(dashu::rational::Relaxed);

/// An exact non-negative rational: a dashu rational paired with the
/// ghost numerator and denominator of the value it carries.
///
/// The pair is the specification-level shadow of the opaque rational:
/// every constructor of this module states how it evolves, mirroring the
/// exact value of the carried number, and nothing else can build one.
pub struct Util {
    rat: dashu::rational::Relaxed,
    num: Ghost<int>,
    den: Ghost<int>,
}

impl Util {
    /// The numerator of the value this rational stands for.
    pub closed spec fn spec_num(&self) -> int {
        self.num@
    }

    /// The denominator of the value this rational stands for.
    pub closed spec fn spec_den(&self) -> int {
        self.den@
    }
}

/// Relies on dashu's `Relaxed::from_parts_const`: builds the exact
/// rational `num / den`, here shadowed by that very pair. The call
/// panics on a zero denominator, which the precondition excludes.
#[verifier::external_body]
fn util_ratio(num: u64, den: u64) -> (u: Util)
    requires
        den >= 1,
    ensures
        u.spec_num() == num,
        u.spec_den() == den,
{
    Util {
        rat: dashu::rational::Relaxed::from_parts_const(
            dashu::integer::Sign::Positive,
            num as u128,
            den as u128,
        ),
        num: Ghost(0int),
        den: Ghost(1int),
    }
}

/// Relies on dashu's `Add` for `Relaxed`: exact rational addition, which
/// on the shadow pairs is addition of fractions.
#[verifier::external_body]
fn util_add(a: Util, b: Util) -> (r: Util)
    ensures
        r.spec_num() == a.spec_num() * b.spec_den() + b.spec_num() * a.spec_den(),
        r.spec_den() == a.spec_den() * b.spec_den(),
{
    Util { rat: a.rat + b.rat, num: Ghost(0int), den: Ghost(1int) }
}

/// Relies on num-order's `NumOrd::num_le` between `Relaxed` and `usize`:
/// the exact value comparison `num / den <= m`, which with a positive
/// denominator is `num <= m * den`.
#[verifier::external_body]
fn util_le_usize(a: &Util, m: usize) -> (r: bool)
    requires
        a.spec_den() >= 1,
        a.spec_num() >= 0,
    ensures
        r == (a.spec_num() <= m * a.spec_den()),
{
    num_order::NumOrd::num_le(&a.rat, &m)
}

/// Whether every task's deadline equals its period.
pub open spec fn all_implicit_spec(tasks: Seq<Task>) -> bool {
    forall|i: int| 0 <= i < tasks.len() ==> (#[trigger] tasks[i]).period == tasks[i].deadline
}

/// Whether every task's cost plus its total blocking length stays within
/// its period.
pub open spec fn all_feasible_spec(tasks: Seq<Task>, data: Seq<ObliviousData>) -> bool {
    forall|i: int|
        0 <= i < tasks.len() ==> (#[trigger] tasks[i]).cost + (#[trigger] data[i]).total.length
            <= tasks[i].period
}

/// The numerator of the exact total utilization of the first `upto`
/// tasks, each with its blocking accounted for, over the denominator
/// [`util_den`]: the sum of `(cost + blocking) / period` as one fraction.
pub open spec fn util_num(tasks: Seq<Task>, data: Seq<ObliviousData>, upto: int) -> int
    decreases upto,
{
    if upto <= 0 {
        0
    } else {
        util_num(tasks, data, upto - 1) * tasks[upto - 1].period + (tasks[upto - 1].cost + data[
            upto - 1
        ].total.length) * util_den(tasks, upto - 1)
    }
}

/// The denominator of the exact total utilization of the first `upto`
/// tasks: the product of their periods.
pub open spec fn util_den(tasks: Seq<Task>, upto: int) -> int
    decreases upto,
{
    if upto <= 0 {
        1
    } else {
        util_den(tasks, upto - 1) * tasks[upto - 1].period
    }
}

/// Whether the exact total utilization, blocking accounted for, is at
/// most `m`.
pub open spec fn utilization_at_most(tasks: Seq<Task>, data: Seq<ObliviousData>, m: int) -> bool {
    util_num(tasks, data, tasks.len() as int) <= m * util_den(tasks, tasks.len() as int)
}

/// With every period positive, the utilization fraction has a positive
/// denominator and a non-negative numerator.
proof fn lemma_util_parts_signs(tasks: Seq<Task>, data: Seq<ObliviousData>, upto: int)
    requires
        upto <= tasks.len(),
        forall|i: int| 0 <= i < tasks.len() ==> (#[trigger] tasks[i]).period >= 1,
    ensures
        util_den(tasks, upto) >= 1,
        util_num(tasks, data, upto) >= 0,
    decreases upto,
{
    if upto > 0 {
        lemma_util_parts_signs(tasks, data, upto - 1);
        let p = tasks[upto - 1].period as int;
        let c = tasks[upto - 1].cost + data[upto - 1].total.length;
        assert(util_den(tasks, upto - 1) * p >= 1) by (nonlinear_arith)
            requires util_den(tasks, upto - 1) >= 1 && p >= 1;
        assert(util_num(tasks, data, upto - 1) * p >= 0 && c * util_den(tasks, upto - 1) >= 0)
            by (nonlinear_arith)
            requires
                util_num(tasks, data, upto - 1) >= 0 && p >= 1 && c >= 0 && util_den(tasks, upto - 1) >= 1;
    }
}

/// The verdict of the boundedness test, given the outcome `util_le` of
/// the exact utilization comparison against the CPU count: no opinion
/// unless all deadlines are implicit, otherwise a pass exactly when the
/// utilization fits and every task stays feasible.
pub fn soft_with(tasks: &Vec<Task>, data: &Vec<ObliviousData>, util_le: bool) -> (r: Option<bool>)
    requires
        tasks@.len() == data@.len(),
    ensures
        r is Some <==> all_implicit_spec(tasks@),
        all_implicit_spec(tasks@) ==> r == Some(util_le && all_feasible_spec(tasks@, data@)),
{
    let n = tasks.len();

    let mut i: usize = 0;
    while i < n
        invariant
            i <= n,
            n == tasks@.len(),
            forall|j: int| 0 <= j < i ==> (#[trigger] tasks@[j]).period == tasks@[j].deadline,
        decreases n - i,
    {
        if tasks[i].period != tasks[i].deadline {
            return None;
        }
        i = i + 1;
    }

    let mut feasible = true;
    let mut i: usize = 0;
    while i < n
        invariant
            i <= n,
            n == tasks@.len(),
            n == data@.len(),
            feasible == (forall|j: int|
                0 <= j < i ==> (#[trigger] tasks@[j]).cost + (#[trigger] data@[j]).total.length
                    <= tasks@[j].period),
        decreases n - i,
    {
        let t = tasks[i];
        let d = data[i];
        if !(d.total.length <= t.period && t.cost <= t.period - d.total.length) {
            feasible = false;
        }
        i = i + 1;
    }

    Some(util_le && feasible)
}

/// Tests whether the task-set has bounded response times under global EDF
/// and/or global FIFO, with each task's blocking bound accounted for.
///
/// Both schedulers have the same condition for boundedness (though they
/// do not in general have the same tardiness bounds): total utilization
/// at most the CPU count, and every task feasible. The utilization sum is
/// computed as an exact rational.
///
/// Returns the result of the test if all deadlines are implicit,
/// otherwise `None`.
pub fn soft(tasks: &Vec<Task>, data: &Vec<ObliviousData>, num_cpus: usize) -> (r: Option<bool>)
    requires
        tasks@.len() == data@.len(),
        forall|i: int| 0 <= i < tasks@.len() ==> (#[trigger] tasks@[i]).period >= 1,
        forall|i: int|
            0 <= i < tasks@.len() ==> (#[trigger] tasks@[i]).cost + (#[trigger] data@[
                i
            ]).total.length <= u64::MAX,
    ensures
        r is Some <==> all_implicit_spec(tasks@),
        all_implicit_spec(tasks@) ==> r == Some(
            utilization_at_most(tasks@, data@, num_cpus as int) && all_feasible_spec(
                tasks@,
                data@,
            ),
        ),
{
    let n = tasks.len();
    let mut util = util_ratio(0, 1);
    let mut i: usize = 0;
    while i < n
        invariant
            i <= n,
            n == tasks@.len(),
            n == data@.len(),
            forall|j: int| 0 <= j < n ==> (#[trigger] tasks@[j]).period >= 1,
            forall|j: int|
                0 <= j < n ==> (#[trigger] tasks@[j]).cost + (#[trigger] data@[j]).total.length
                    <= u64::MAX,
            util.spec_num() == util_num(tasks@, data@, i as int),
            util.spec_den() == util_den(tasks@, i as int),
        decreases n - i,
    {
        let t = tasks[i];
        let d = data[i];
        let term = util_ratio(t.cost + d.total.length, t.period);
        util = util_add(util, term);
        i = i + 1;
    }
    proof {
        lemma_util_parts_signs(tasks@, data@, n as int);
    }
    let util_le = util_le_usize(&util, num_cpus);
    soft_with(tasks, data, util_le)
}

} // verus!
