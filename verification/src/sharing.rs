//! Structures and traits for resource-sharing protocols and analysis.

use vstd::prelude::*;

use crate::rsrc::{
    TaskRequest, RequestKind, RequestSet, System, sorted_by_length_desc, distinct_tasks,
    usages_valid,
};

verus! {

/// Mathematical model of a [`Bound`]: an interference count and a total
/// length, both as unbounded integers.
pub ghost struct BoundModel {
    /// Total length of time.
    pub length: int,
    /// Total request count.
    pub count: int,
}

/// The model with zero count and zero length.
pub open spec fn bm_zero() -> BoundModel {
    BoundModel { length: 0, count: 0 }
}

/// Pointwise addition of bound models.
pub open spec fn bm_add(a: BoundModel, b: BoundModel) -> BoundModel {
    BoundModel { length: a.length + b.length, count: a.count + b.count }
}

/// Pointwise scaling of a bound model by a factor.
pub open spec fn bm_scale(k: int, a: BoundModel) -> BoundModel {
    BoundModel { length: k * a.length, count: k * a.count }
}

/// The larger of two bound models, compared by length first and count
/// second.
pub open spec fn bm_max(a: BoundModel, b: BoundModel) -> BoundModel {
    if a.length > b.length || (a.length == b.length && a.count >= b.count) {
        a
    } else {
        b
    }
}

/// A bound on the number and total length of requests that interfere
/// with requests from a given task to any resource.
#[derive(Clone, Copy, PartialEq, Eq, Structural, Debug)]
pub struct Bound {
    /// Total length of time.
    pub length: u64,
    /// Total request count.
    pub count: usize,
}

impl View for Bound {
    type V = BoundModel;

    open spec fn view(&self) -> BoundModel {
        BoundModel { length: self.length as int, count: self.count as int }
    }
}

impl Bound {
    /// Constructs a new `Bound` relative to a single interfering request
    /// of length `length`.
    pub fn new(length: u64) -> (b: Bound)
        ensures
            b.count == 1,
            b.length == length,
    {
        Bound { count: 1, length }
    }

    /// The bound counting no interference at all.
    pub fn zero() -> (b: Bound)
        ensures
            b@ == bm_zero(),
    {
        Bound { count: 0, length: 0 }
    }

    /// Adds another bound to this one, pointwise.
    pub fn add(self, other: Bound) -> (r: Bound)
        requires
            self.count + other.count <= usize::MAX,
            self.length + other.length <= u64::MAX,
        ensures
            r@ == bm_add(self@, other@),
    {
        Bound { count: self.count + other.count, length: self.length + other.length }
    }

    /// Scales this bound by a non-negative factor, pointwise.
    pub fn mul(self, k: usize) -> (r: Bound)
        requires
            self.count * k <= usize::MAX,
            self.length * k <= u64::MAX,
        ensures
            r@ == bm_scale(k as int, self@),
    {
        proof {
            assert(self.count * k == k * self.count) by (nonlinear_arith);
            assert(self.length * k == k * self.length) by (nonlinear_arith);
        }
        Bound { count: self.count * k, length: self.length * (k as u64) }
    }

    /// The larger of `self` and `other`, compared by length first and
    /// count second.
    pub fn max_of(self, other: Bound) -> (r: Bound)
        ensures
            r@ == bm_max(self@, other@),
            r == self || r == other,
    {
        if self.length > other.length || (self.length == other.length && self.count >= other.count) {
            self
        } else {
            other
        }
    }
}

/// `Bound` addition is commutative.
pub proof fn lemma_bound_add_comm(a: BoundModel, b: BoundModel)
    ensures
        bm_add(a, b) == bm_add(b, a),
{
}

/// `Bound` addition is associative.
pub proof fn lemma_bound_add_assoc(a: BoundModel, b: BoundModel, c: BoundModel)
    ensures
        bm_add(bm_add(a, b), c) == bm_add(a, bm_add(b, c)),
{
}

/// The zero bound is the identity of `Bound` addition.
pub proof fn lemma_bound_add_identity(a: BoundModel)
    ensures
        bm_add(a, bm_zero()) == a,
        bm_add(bm_zero(), a) == a,
{
}

/// Scalar multiplication distributes over `Bound` addition.
pub proof fn lemma_bound_scale_distributes(k: int, a: BoundModel, b: BoundModel)
    ensures
        bm_scale(k, bm_add(a, b)) == bm_add(bm_scale(k, a), bm_scale(k, b)),
{
    assert(k * (a.length + b.length) == k * a.length + k * b.length) by (nonlinear_arith);
    assert(k * (a.count + b.count) == k * a.count + k * b.count) by (nonlinear_arith);
}

/// Result of an s-oblivious analysis on a task system.
#[derive(Clone, Copy, PartialEq, Eq, Structural, Debug)]
pub struct ObliviousData {
    /// Bound on arrival blocking, if any.
    pub arrival: Bound,
    /// Bound on total request blocking.
    pub total: Bound,
}

impl ObliviousData {
    /// Data with no blocking at all.
    pub fn zero() -> (d: ObliviousData)
        ensures
            d.arrival@ == bm_zero(),
            d.total@ == bm_zero(),
    {
        ObliviousData { arrival: Bound::zero(), total: Bound::zero() }
    }

    /// Interprets a bound as total request blocking with no arrival
    /// blocking.
    pub fn from_total(total: Bound) -> (d: ObliviousData)
        ensures
            d.total == total,
            d.arrival@ == bm_zero(),
    {
        ObliviousData { total, arrival: Bound::zero() }
    }
}

/// Mathematical model of an [`ObliviousData`].
pub ghost struct ObliviousModel {
    /// Bound on arrival blocking.
    pub arrival: BoundModel,
    /// Bound on total request blocking.
    pub total: BoundModel,
}

impl View for ObliviousData {
    type V = ObliviousModel;

    open spec fn view(&self) -> ObliviousModel {
        ObliviousModel { arrival: self.arrival@, total: self.total@ }
    }
}

/// The analysis result with the given mathematical model; meaningful
/// when the model's components fit their machine types.
pub open spec fn data_of(m: ObliviousModel) -> ObliviousData {
    ObliviousData {
        arrival: Bound { length: m.arrival.length as u64, count: m.arrival.count as usize },
        total: Bound { length: m.total.length as u64, count: m.total.count as usize },
    }
}

/// Whether one analysis result stays within the range every analyzer of
/// this crate keeps: at most 2^30 interfering requests and a total length
/// of at most 2^50 per bound. The margins leave the aggregation pass room
/// to add an arrival bound to a total bound without overflow.
pub open spec fn data_modest(d: ObliviousData) -> bool {
    &&& d.total.count <= 0x4000_0000
    &&& d.total.length <= 0x4_0000_0000_0000
    &&& d.arrival.count <= 0x4000_0000
    &&& d.arrival.length <= 0x4_0000_0000_0000
}

/// An analyzer that obtains bounds for requests of kind `K` from a task
/// system.
///
/// Every analyzer works under the assumption of some protocol being used
/// for resource sharing, whose published worst-case analysis it
/// implements.
pub trait ObliviousAnalyzer<K: RequestKind> {
    /// The systems this analyzer accepts: bounds that keep all of its
    /// arithmetic within its machine types.
    spec fn admissible(&self, sys: &System<K>) -> bool;

    /// The analyzer's result for the task at index `task`, as a function
    /// of the system and the sorted resource-major usage views.
    spec fn pass_spec(&self, task: int, sys: &System<K>, by_rsrc: Seq<K::Usage>) -> ObliviousModel;

    /// What the aggregation pass turns the per-task results into.
    spec fn post_spec(&self, sys: &System<K>, data: Seq<ObliviousData>) -> Seq<ObliviousModel>;

    /// Runs a single analysis pass on the task at index `task` of system
    /// `sys`.
    ///
    /// `by_rsrc` holds one usage view per resource, each sorted by
    /// non-increasing request length, so that
    /// [`BoundBlocking::bound_blocking`] returns valid bounds over it.
    fn pass(&self, task: usize, sys: &System<K>, by_rsrc: &Vec<K::Usage>) -> (d: ObliviousData)
        requires
            sys.wf(),
            task < sys.spec_tasks().len(),
            by_rsrc@.len() == sys.spec_num_rsrc(),
            forall|r: int|
                0 <= r < sys.spec_num_rsrc() ==> K::usage_for(sys.col(r), #[trigger] by_rsrc@[r]),
            forall|r: int| 0 <= r < sys.spec_num_rsrc() ==> (#[trigger] by_rsrc@[r]).sorted_spec(),
            self.admissible(sys),
        ensures
            d@ == self.pass_spec(task as int, sys, by_rsrc@),
            data_modest(d),
    ;

    /// The analysis is a function of the system alone: any two valid
    /// families of sorted usage views yield the same result for every
    /// task, whatever order tied requests were put in.
    proof fn pass_deterministic(
        &self,
        task: int,
        sys: &System<K>,
        us1: Seq<K::Usage>,
        us2: Seq<K::Usage>,
    )
        requires
            self.admissible(sys),
            usages_valid(sys, us1),
            usages_valid(sys, us2),
        ensures
            self.pass_spec(task, sys, us1) == self.pass_spec(task, sys, us2),
    ;

    /// Runs the final pass on all data returned by
    /// [`pass`](Self::pass).
    ///
    /// `out` contains the results for each task in `sys` in index order.
    /// The main use of this method is computing arrival blocking for
    /// protocols that require it; analyzers without such a pass leave
    /// `out` unchanged.
    fn post(&self, sys: &System<K>, out: &mut Vec<ObliviousData>)
        requires
            sys.wf(),
            self.admissible(sys),
            old(out)@.len() == sys.spec_tasks().len(),
            forall|i: int| 0 <= i < old(out)@.len() ==> data_modest(#[trigger] old(out)@[i]),
        ensures
            final (out)@.len() == old(out)@.len(),
            forall|i: int|
                0 <= i < old(out)@.len() ==> (#[trigger] final (out)@[i])@ == self.post_spec(
                    sys,
                    old(out)@,
                )[i],
    ;

    /// Returns the name of the protocol (or analyzer).
    fn name(&self) -> &'static str;
}

/// Limits for request counts to be used by [`BoundBlocking::bound_blocking`].
#[derive(Clone, Copy, PartialEq, Eq, Structural, Debug)]
pub struct Limits {
    /// Total request limit for the entire set of requests.
    pub total: usize,
    /// Request limit for a single task.
    pub per_task: usize,
}

impl Limits {
    /// Scales both limits by a factor.
    pub fn mul(self, k: usize) -> (r: Limits)
        requires
            self.total * k <= usize::MAX,
            self.per_task * k <= usize::MAX,
        ensures
            r.total == self.total * k,
            r.per_task == self.per_task * k,
    {
        Limits { total: self.total * k, per_task: self.per_task * k }
    }
}

/// The worst-case interference a set of competing requests can inflict,
/// attributed greedily: walking `reqs` in order, entries of the task
/// `task` itself are skipped, and every other entry contributes
/// `min(remaining, per_task)` requests of its length, where `remaining`
/// is what is left of the `total` budget.
///
/// The result is a valid worst-case bound only when `reqs` is sorted by
/// non-increasing length and holds at most one entry per task; the
/// function itself is defined for every input.
pub open spec fn blocking(reqs: Seq<TaskRequest>, task: int, total: int, per_task: int) -> BoundModel
    decreases reqs.len(),
{
    if reqs.len() == 0 {
        bm_zero()
    } else {
        let tr = reqs[0];
        if tr.task == task {
            blocking(reqs.drop_first(), task, total, per_task)
        } else if total <= 0 {
            bm_zero()
        } else {
            let num = if total <= per_task { total } else { per_task };
            let rest = blocking(reqs.drop_first(), task, total - num, per_task);
            BoundModel { count: num + rest.count, length: num * tr.req.length + rest.length }
        }
    }
}

/// The greedy interference accounting never yields a negative count or
/// length, and never exceeds the total budget in count.
pub proof fn lemma_blocking_nonneg(reqs: Seq<TaskRequest>, task: int, total: int, per_task: int)
    requires
        per_task >= 0,
    ensures
        blocking(reqs, task, total, per_task).count >= 0,
        blocking(reqs, task, total, per_task).length >= 0,
        blocking(reqs, task, total, per_task).count <= (if total >= 0 { total } else { 0 }),
    decreases reqs.len(),
{
    if reqs.len() > 0 {
        let tr = reqs[0];
        if tr.task == task {
            lemma_blocking_nonneg(reqs.drop_first(), task, total, per_task);
        } else if total > 0 {
            let num = if total <= per_task { total } else { per_task };
            lemma_blocking_nonneg(reqs.drop_first(), task, total - num, per_task);
            assert(num * tr.req.length >= 0) by (nonlinear_arith)
                requires num >= 0 && tr.req.length >= 0;
        }
    }
}

/// The greedy interference accounting stays within its budget: at most
/// `total` requests, none longer than the longest competing request.
pub proof fn lemma_blocking_bounds(
    reqs: Seq<TaskRequest>,
    task: int,
    total: int,
    per_task: int,
    cap: int,
)
    requires
        per_task >= 0,
        cap >= 0,
        forall|i: int| 0 <= i < reqs.len() ==> (#[trigger] reqs[i]).req.length <= cap,
    ensures
        blocking(reqs, task, total, per_task).count >= 0,
        blocking(reqs, task, total, per_task).length >= 0,
        blocking(reqs, task, total, per_task).count <= (if total >= 0 { total } else { 0 }),
        blocking(reqs, task, total, per_task).length <= (if total >= 0 { total } else { 0 }) * cap,
    decreases reqs.len(),
{
    let budget: int = if total >= 0 { total } else { 0 };
    assert(budget * cap >= 0) by (nonlinear_arith)
        requires budget >= 0 && cap >= 0;
    if reqs.len() > 0 {
        let tr = reqs[0];
        assert(forall|i: int|
            0 <= i < reqs.drop_first().len() ==> (#[trigger] reqs.drop_first()[i]).req.length <= cap);
        if tr.task == task {
            lemma_blocking_bounds(reqs.drop_first(), task, total, per_task, cap);
        } else if total > 0 {
            let num = if total <= per_task { total } else { per_task };
            lemma_blocking_bounds(reqs.drop_first(), task, total - num, per_task, cap);
            let rest = blocking(reqs.drop_first(), task, total - num, per_task);
            assert(num * tr.req.length <= num * cap) by (nonlinear_arith)
                requires 0 <= num && 0 <= tr.req.length <= cap;
            assert(num * cap + (total - num) * cap == total * cap) by (nonlinear_arith);
        }
    }
}

/// Multiplying within bounds stays within the product of the bounds.
pub proof fn lemma_mul_le(a: int, b: int, c: int, d: int)
    requires
        0 <= a <= c,
        0 <= b <= d,
    ensures
        0 <= a * b <= c * d,
        a * b == b * a,
{
    assert(0 <= a * b <= c * d && a * b == b * a) by (nonlinear_arith)
        requires 0 <= a <= c && 0 <= b <= d;
}

/// With no budget left, the greedy accounting yields nothing.
pub proof fn lemma_blocking_zero_total(reqs: Seq<TaskRequest>, task: int, total: int, per_task: int)
    requires
        total <= 0,
    ensures
        blocking(reqs, task, total, per_task) == bm_zero(),
    decreases reqs.len(),
{
    if reqs.len() > 0 {
        lemma_blocking_zero_total(reqs.drop_first(), task, total, per_task);
    }
}

/// Raising the total budget from `t1` to `t2` adds at most `t2 - t1`
/// requests, none longer than `cap`.
proof fn lemma_blocking_extra(
    reqs: Seq<TaskRequest>,
    task: int,
    t1: int,
    t2: int,
    per_task: int,
    cap: int,
)
    requires
        0 <= t1 <= t2,
        per_task >= 0,
        cap >= 0,
        forall|i: int| 0 <= i < reqs.len() ==> (#[trigger] reqs[i]).req.length <= cap,
    ensures
        blocking(reqs, task, t2, per_task).count <= blocking(reqs, task, t1, per_task).count + (t2
            - t1),
        blocking(reqs, task, t2, per_task).length <= blocking(reqs, task, t1, per_task).length + (
        t2 - t1) * cap,
    decreases reqs.len(),
{
    assert((t2 - t1) * cap >= 0) by (nonlinear_arith)
        requires t2 - t1 >= 0 && cap >= 0;
    if reqs.len() == 0 {
    } else {
        let tr = reqs[0];
        assert(forall|i: int|
            0 <= i < reqs.drop_first().len() ==> (#[trigger] reqs.drop_first()[i]).req.length
                <= cap);
        if tr.task == task {
            lemma_blocking_extra(reqs.drop_first(), task, t1, t2, per_task, cap);
        } else if t1 <= 0 {
            lemma_blocking_zero_total(reqs, task, t1, per_task);
            lemma_blocking_bounds(reqs, task, t2, per_task, cap);
            assert((if t2 >= 0 { t2 } else { 0 }) * cap <= (t2 - t1) * cap) by (nonlinear_arith)
                requires t1 <= 0 && 0 <= t2 && cap >= 0;
        } else {
            let num1 = if t1 <= per_task { t1 } else { per_task };
            let num2 = if t2 <= per_task { t2 } else { per_task };
            lemma_blocking_extra(reqs.drop_first(), task, t1 - num1, t2 - num2, per_task, cap);
            assert((num2 - num1) * tr.req.length <= (num2 - num1) * cap) by (nonlinear_arith)
                requires 0 <= num2 - num1 && 0 <= tr.req.length <= cap;
            assert(num1 * tr.req.length + (num2 - num1) * tr.req.length == num2 * tr.req.length)
                by (nonlinear_arith);
            assert(((t2 - num2) - (t1 - num1)) * cap + (num2 - num1) * cap == (t2 - t1) * cap)
                by (nonlinear_arith);
        }
    }
}

/// The greedy interference accounting is monotonically non-decreasing in
/// both limits: with the same length-sorted competitor list, a larger
/// total budget or a larger per-task allowance never shrinks the bound.
pub proof fn lemma_blocking_monotone(
    reqs: Seq<TaskRequest>,
    task: int,
    t1: int,
    p1: int,
    t2: int,
    p2: int,
)
    requires
        sorted_by_length_desc(reqs),
        0 <= t1 <= t2,
        0 <= p1 <= p2,
    ensures
        blocking(reqs, task, t1, p1).count <= blocking(reqs, task, t2, p2).count,
        blocking(reqs, task, t1, p1).length <= blocking(reqs, task, t2, p2).length,
    decreases reqs.len(),
{
    if reqs.len() == 0 {
    } else {
        let tr = reqs[0];
        let cap = tr.req.length as int;
        assert(forall|i: int|
            0 <= i < reqs.len() ==> (#[trigger] reqs[i]).req.length <= cap);
        assert(sorted_by_length_desc(reqs.drop_first()));
        assert(forall|i: int|
            0 <= i < reqs.drop_first().len() ==> (#[trigger] reqs.drop_first()[i]).req.length
                <= cap);
        if tr.task == task {
            lemma_blocking_monotone(reqs.drop_first(), task, t1, p1, t2, p2);
        } else if t1 <= 0 {
            lemma_blocking_zero_total(reqs, task, t1, p1);
            lemma_blocking_nonneg(reqs, task, t2, p2);
        } else {
            let num1 = if t1 <= p1 { t1 } else { p1 };
            let num2 = if t2 <= p2 { t2 } else { p2 };
            let r1 = t1 - num1;
            let r2 = t2 - num2;
            lemma_blocking_nonneg(reqs.drop_first(), task, r1, p1);
            lemma_blocking_nonneg(reqs.drop_first(), task, r2, p2);
            if r1 <= r2 {
                lemma_blocking_monotone(reqs.drop_first(), task, r1, p1, r2, p2);
                assert(num1 * cap <= num2 * cap) by (nonlinear_arith)
                    requires 0 <= num1 <= num2 && cap >= 0;
            } else {
                let d = r1 - r2;
                lemma_blocking_extra(reqs.drop_first(), task, r2, r1, p1, cap);
                lemma_blocking_monotone(reqs.drop_first(), task, r2, p1, r2, p2);
                assert(num1 + d <= num2);
                assert(num1 * cap + d * cap <= num2 * cap) by (nonlinear_arith)
                    requires 0 <= num1 && 0 <= d && num1 + d <= num2 && cap >= 0;
            }
        }
    }
}

/// Exchanging the first two entries, when their lengths are equal, does
/// not change the greedy accounting.
proof fn lemma_blocking_swap_head(s: Seq<TaskRequest>, task: int, total: int, per_task: int)
    requires
        s.len() >= 2,
        per_task >= 0,
        s[0].req.length == s[1].req.length,
    ensures
        blocking(s.update(0, s[1]).update(1, s[0]), task, total, per_task) == blocking(
            s,
            task,
            total,
            per_task,
        ),
{
    reveal_with_fuel(blocking, 4);
    let w = s.update(0, s[1]).update(1, s[0]);
    let rest = s.skip(2);
    assert(s.drop_first().drop_first() =~= rest);
    assert(w.drop_first().drop_first() =~= rest);
    assert(w[0] == s[1] && w[1] == s[0]);
    assert(w.drop_first()[0] == s[0]);
    assert(s.drop_first()[0] == s[1]);
    let a = s[0];
    let b = s[1];
    let lng = a.req.length as int;
    if a.task == task && b.task == task {
        assert(blocking(s, task, total, per_task) == blocking(rest, task, total, per_task));
        assert(blocking(w, task, total, per_task) == blocking(rest, task, total, per_task));
    } else if a.task == task {
        // only the second entry competes
        if total <= 0 {
            assert(blocking(s, task, total, per_task) == bm_zero());
            assert(blocking(w, task, total, per_task) == bm_zero());
        } else {
            let num = if total <= per_task { total } else { per_task };
            assert(blocking(s, task, total, per_task) == (BoundModel {
                count: num + blocking(rest, task, total - num, per_task).count,
                length: num * lng + blocking(rest, task, total - num, per_task).length,
            }));
            assert(blocking(w, task, total, per_task) == (BoundModel {
                count: num + blocking(rest, task, total - num, per_task).count,
                length: num * lng + blocking(rest, task, total - num, per_task).length,
            }));
        }
    } else if b.task == task {
        // only the first entry competes
        if total <= 0 {
            assert(blocking(s, task, total, per_task) == bm_zero());
            assert(blocking(w, task, total, per_task) == bm_zero());
        } else {
            let num = if total <= per_task { total } else { per_task };
            assert(blocking(s, task, total, per_task) == (BoundModel {
                count: num + blocking(rest, task, total - num, per_task).count,
                length: num * lng + blocking(rest, task, total - num, per_task).length,
            }));
            assert(blocking(w, task, total, per_task) == (BoundModel {
                count: num + blocking(rest, task, total - num, per_task).count,
                length: num * lng + blocking(rest, task, total - num, per_task).length,
            }));
        }
    } else {
        // both entries compete
        if total <= 0 {
            assert(blocking(s, task, total, per_task) == bm_zero());
            assert(blocking(w, task, total, per_task) == bm_zero());
        } else {
            let num1 = if total <= per_task { total } else { per_task };
            if total - num1 <= 0 {
                assert(blocking(s, task, total, per_task) == (BoundModel {
                    count: num1 + 0,
                    length: num1 * lng + 0,
                }));
                assert(blocking(w, task, total, per_task) == (BoundModel {
                    count: num1 + 0,
                    length: num1 * lng + 0,
                }));
            } else {
                let num2 = if total - num1 <= per_task { total - num1 } else { per_task };
                let tail = blocking(rest, task, total - num1 - num2, per_task);
                assert(num1 * lng + (num2 * lng + tail.length) == num2 * lng + (num1 * lng
                    + tail.length)) by (nonlinear_arith);
                assert(blocking(s, task, total, per_task) == (BoundModel {
                    count: num1 + (num2 + tail.count),
                    length: num1 * lng + (num2 * lng + tail.length),
                }));
                assert(blocking(w, task, total, per_task) == (BoundModel {
                    count: num1 + (num2 + tail.count),
                    length: num1 * lng + (num2 * lng + tail.length),
                }));
            }
        }
    }
}

/// Exchanging any two adjacent entries of equal length does not change
/// the greedy accounting.
proof fn lemma_blocking_swap(s: Seq<TaskRequest>, i: int, task: int, total: int, per_task: int)
    requires
        0 <= i,
        i + 1 < s.len(),
        per_task >= 0,
        s[i].req.length == s[i + 1].req.length,
    ensures
        blocking(s.update(i, s[i + 1]).update(i + 1, s[i]), task, total, per_task) == blocking(
            s,
            task,
            total,
            per_task,
        ),
    decreases i,
{
    let w = s.update(i, s[i + 1]).update(i + 1, s[i]);
    if i == 0 {
        lemma_blocking_swap_head(s, task, total, per_task);
    } else {
        assert(w[0] == s[0]);
        let sd = s.drop_first();
        assert(w.drop_first() =~= sd.update(i - 1, sd[i]).update(i, sd[i - 1]));
        let tr = s[0];
        if tr.task == task {
            lemma_blocking_swap(sd, i - 1, task, total, per_task);
        } else if total <= 0 {
        } else {
            let num = if total <= per_task { total } else { per_task };
            lemma_blocking_swap(sd, i - 1, task, total - num, per_task);
        }
    }
}

/// Moving an entry whose length ties all entries before it to the front
/// does not change the greedy accounting.
proof fn lemma_blocking_to_front(s: Seq<TaskRequest>, k: int, task: int, total: int, per_task: int)
    requires
        0 <= k < s.len(),
        per_task >= 0,
        forall|j: int| 0 <= j <= k ==> (#[trigger] s[j]).req.length == s[k].req.length,
    ensures
        blocking(seq![s[k]] + s.remove(k), task, total, per_task) == blocking(
            s,
            task,
            total,
            per_task,
        ),
    decreases k,
{
    if k == 0 {
        assert(seq![s[0]] + s.remove(0) =~= s);
    } else {
        let w = s.update(k - 1, s[k]).update(k, s[k - 1]);
        lemma_blocking_swap(s, k - 1, task, total, per_task);
        assert(forall|j: int| 0 <= j <= k - 1 ==> (#[trigger] w[j]).req.length == w[k - 1].req.length);
        lemma_blocking_to_front(w, k - 1, task, total, per_task);
        assert(w[k - 1] == s[k]);
        assert(w.remove(k - 1) =~= s.remove(k));
        assert(seq![w[k - 1]] + w.remove(k - 1) =~= seq![s[k]] + s.remove(k));
    }
}

/// For a fixed set of competitors, the greedy accounting depends only on
/// their multiset, as long as both arrangements are sorted by
/// non-increasing length: any permutation that does not disturb the
/// length-sorted order yields the same bound.
pub proof fn lemma_blocking_permutation(
    s1: Seq<TaskRequest>,
    s2: Seq<TaskRequest>,
    task: int,
    total: int,
    per_task: int,
)
    requires
        sorted_by_length_desc(s1),
        sorted_by_length_desc(s2),
        s1.to_multiset() == s2.to_multiset(),
        per_task >= 0,
    ensures
        blocking(s1, task, total, per_task) == blocking(s2, task, total, per_task),
    decreases s1.len(), (if s1.len() > 0 && s2.len() > 0 && s1[0] == s2[0] {
        0int
    } else {
        1int
    }),
{
    broadcast use vstd::seq_lib::group_to_multiset_ensures;

    assert(s1.to_multiset().len() == s1.len());
    assert(s2.to_multiset().len() == s2.len());
    if s1.len() == 0 {
    } else if s1[0] == s2[0] {
        let d1 = s1.drop_first();
        let d2 = s2.drop_first();
        assert(s1.remove(0) =~= d1);
        assert(s2.remove(0) =~= d2);
        assert(d1.to_multiset() =~= s1.to_multiset().remove(s1[0]));
        assert(d2.to_multiset() =~= s2.to_multiset().remove(s2[0]));
        assert(d1.to_multiset() == d2.to_multiset());
        assert(sorted_by_length_desc(d1));
        assert(sorted_by_length_desc(d2));
        let tr = s1[0];
        if tr.task == task {
            lemma_blocking_permutation(d1, d2, task, total, per_task);
        } else if total <= 0 {
        } else {
            let num = if total <= per_task { total } else { per_task };
            lemma_blocking_permutation(d1, d2, task, total - num, per_task);
        }
    } else {
        let v = s2[0];
        assert(s2.to_multiset().count(v) > 0);
        assert(s1.contains(v));
        let k = choose|k: int| 0 <= k < s1.len() && s1[k] == v;
        // all entries up to k tie the front length
        assert(s2.contains(s1[0])) by {
            assert(s1.to_multiset().count(s1[0]) > 0);
        }
        let j2 = choose|j2: int| 0 <= j2 < s2.len() && s2[j2] == s1[0];
        assert(s1[0].req.length <= s2[0].req.length);
        assert(s2[0].req.length <= s1[k].req.length);
        assert forall|j: int| 0 <= j <= k implies (#[trigger] s1[j]).req.length
            == s1[k].req.length by {
            assert(s1[0].req.length >= s1[j].req.length >= s1[k].req.length);
        }
        lemma_blocking_to_front(s1, k, task, total, per_task);
        let w = seq![s1[k]] + s1.remove(k);
        assert(w[0] == v);
        assert(w[0] == s2[0]);
        // the rearranged sequence is still sorted and holds the same entries
        assert(w.drop_first() =~= s1.remove(k));
        assert(s1.remove(k).to_multiset() =~= s1.to_multiset().remove(v));
        assert(w =~= seq![v] + s1.remove(k));
        assert(w.to_multiset() =~= s1.remove(k).to_multiset().insert(v)) by {
            assert(w == s1.remove(k).insert(0, v));
            assert(s1.remove(k).insert(0, v).to_multiset() =~= s1.remove(k).to_multiset().insert(
                v,
            ));
        }
        assert(w.to_multiset() == s1.to_multiset());
        assert forall|a: int, b: int| 0 <= a <= b < w.len() implies (#[trigger] w[a]).req.length
            >= (#[trigger] w[b]).req.length by {
            if a == 0 {
                if b > 0 {
                    let orig = if b <= k {
                        b - 1
                    } else {
                        b
                    };
                    assert(w[b] == s1[orig]);
                    assert(s1[0].req.length >= s1[orig].req.length);
                }
            } else {
                let oa = if a <= k {
                    a - 1
                } else {
                    a
                };
                let ob = if b <= k {
                    b - 1
                } else {
                    b
                };
                assert(w[a] == s1[oa]);
                assert(w[b] == s1[ob]);
            }
        }
        lemma_blocking_permutation(w, s2, task, total, per_task);
    }
}

/// Any two sorted views of the same column yield the same greedy bound:
/// which order tied entries appear in does not matter.
pub proof fn lemma_blocking_same_view(
    col: Seq<crate::rsrc::Request>,
    u1: Seq<TaskRequest>,
    u2: Seq<TaskRequest>,
    task: int,
    total: int,
    per_task: int,
)
    requires
        crate::rsrc::usage_matches(col, u1),
        crate::rsrc::usage_matches(col, u2),
        sorted_by_length_desc(u1),
        sorted_by_length_desc(u2),
        per_task >= 0,
    ensures
        blocking(u1, task, total, per_task) == blocking(u2, task, total, per_task),
{
    crate::rsrc::lemma_usage_matches_same_multiset(col, u1, u2);
    lemma_blocking_permutation(u1, u2, task, total, per_task);
}

/// Extension trait to compute blocking bounds for a set of requests.
pub trait BoundBlocking {
    /// The sequence of labeled requests this collection stands for.
    spec fn req_seq(&self) -> Seq<TaskRequest>;

    /// Computes blocking bounds for a set of requests. The set must be
    /// ordered by non-increasing length and must contain at most one entry
    /// per task.
    ///
    /// For every task except the one with index `task`, sums up at most
    /// `limits.total` requests, and at most `limits.per_task` for a single
    /// task.
    fn bound_blocking(&self, task: usize, limits: Limits) -> (r: Bound)
        requires
            sorted_by_length_desc(self.req_seq()),
            distinct_tasks(self.req_seq()),
            blocking(self.req_seq(), task as int, limits.total as int, limits.per_task as int).length
                <= u64::MAX,
        ensures
            r@ == blocking(self.req_seq(), task as int, limits.total as int, limits.per_task as int),
    ;
}

impl BoundBlocking for Vec<TaskRequest> {
    open spec fn req_seq(&self) -> Seq<TaskRequest> {
        self@
    }

    fn bound_blocking(&self, task: usize, limits: Limits) -> (r: Bound) {
        let ghost target = blocking(self@, task as int, limits.total as int, limits.per_task as int);
        let mut count: usize = 0;
        let mut length: u64 = 0;
        let mut i: usize = 0;

        proof {
            assert(self@.skip(0) =~= self@);
        }

        while i < self.len() && count < limits.total
            invariant
                0 <= i <= self@.len(),
                count <= limits.total,
                target == blocking(self@, task as int, limits.total as int, limits.per_task as int),
                target.length <= u64::MAX,
                target == bm_add(
                    BoundModel { count: count as int, length: length as int },
                    blocking(
                        self@.skip(i as int),
                        task as int,
                        limits.total - count,
                        limits.per_task as int,
                    ),
                ),
            decreases self@.len() - i,
        {
            let tr = self[i];
            proof {
                assert(self@.skip(i as int)[0] == self@[i as int]);
                assert(self@.skip(i as int).drop_first() =~= self@.skip(i as int + 1));
            }
            if tr.task != task {
                let remaining = limits.total - count;
                let num = if remaining < limits.per_task { remaining } else { limits.per_task };
                proof {
                    lemma_blocking_nonneg(
                        self@.skip(i as int + 1),
                        task as int,
                        remaining - num,
                        limits.per_task as int,
                    );
                    assert(num * tr.req.length >= 0) by (nonlinear_arith)
                        requires num >= 0 && tr.req.length >= 0;
                }
                count = count + num;
                length = length + (num as u64) * tr.req.length;
            }
            i = i + 1;
        }

        proof {
            if i == self.len() {
                assert(self@.skip(i as int) =~= Seq::<TaskRequest>::empty());
            } else {
                lemma_blocking_zero_total(
                    self@.skip(i as int),
                    task as int,
                    limits.total - count,
                    limits.per_task as int,
                );
            }
        }

        Bound { count, length }
    }
}

/// The full outcome of running analyzer `an` on `sys` over the usage
/// views `us`: one pass per task, then the aggregation pass over all the
/// per-task results.
pub open spec fn analysis_of<K: RequestKind, A: ObliviousAnalyzer<K>>(
    an: &A,
    sys: &System<K>,
    us: Seq<K::Usage>,
) -> Seq<ObliviousModel> {
    an.post_spec(
        sys,
        Seq::new(sys.spec_tasks().len(), |t: int| data_of(an.pass_spec(t, sys, us))),
    )
}

/// A task paired with its s-oblivious analysis results.
///
/// It acts exactly like the [`Task`](crate::task::Task) it holds, except
/// that its effective cost is the task's cost plus the total blocking
/// length of the [`ObliviousData`].
#[derive(Clone, Copy, PartialEq, Eq, Structural, Debug)]
pub struct ObliviousTask {
    /// The task.
    pub task: crate::task::Task,
    /// Its analysis results.
    pub data: ObliviousData,
}

impl ObliviousTask {
    /// Pairs a task with its analysis results.
    pub fn new(task: crate::task::Task, data: ObliviousData) -> (t: ObliviousTask)
        ensures
            t.task == task,
            t.data == data,
    {
        ObliviousTask { task, data }
    }

    /// Whether the task's deadline is implicit, i.e. equal to its period.
    pub fn implicit(&self) -> (r: bool)
        ensures
            r == (self.task.period == self.task.deadline),
    {
        self.task.period == self.task.deadline
    }

    /// Whether the task stays feasible with its blocking accounted for:
    /// cost plus total blocking length within the period.
    pub fn feasible(&self) -> (r: bool)
        ensures
            r == (self.task.cost + self.data.total.length <= self.task.period),
    {
        self.data.total.length <= self.task.period && self.task.cost <= self.task.period
            - self.data.total.length
    }

    /// The task's utilization with blocking accounted for, as an exact
    /// fraction: effective cost over period.
    pub fn utilization_parts(&self) -> (parts: (u64, u64))
        requires
            self.task.cost + self.data.total.length <= u64::MAX,
        ensures
            parts.0 == self.task.cost + self.data.total.length,
            parts.1 == self.task.period,
    {
        (self.task.cost + self.data.total.length, self.task.period)
    }
}

} // verus!

