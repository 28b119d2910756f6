//! The resource model.

use vstd::prelude::*;

use crate::sharing::{ObliviousAnalyzer, ObliviousData, analysis_of, data_modest, data_of};

verus! {

/// Data for a set of requests from a single task to a single resource.
#[derive(Clone, Copy, PartialEq, Eq, Structural, Debug)]
pub struct Request {
    /// Total number of requests.
    pub num: usize,
    /// Maximum length of a single request.
    pub length: u64,
}

impl Default for Request {
    /// The empty request set: no requests, zero length.
    fn default() -> (r: Request)
        ensures
            r.num == 0,
            r.length == 0,
    {
        Request { num: 0, length: 0 }
    }
}

/// A set of requests from a given task to a single resource, labeled with
/// the owning task's index into some [`System`](crate::rsrc).
#[derive(Clone, Copy, PartialEq, Eq, Structural, Debug)]
pub struct TaskRequest {
    /// The task in question, as an index into some task-set.
    pub task: usize,
    /// The request data.
    pub req: Request,
}

/// A pair of independent read and write components.
#[derive(Clone, Copy, PartialEq, Eq, Structural, Debug)]
pub struct RwPair<T> {
    /// The read component.
    pub read: T,
    /// The write component.
    pub write: T,
}

/// Whether `s` is ordered by non-increasing maximum request length.
pub open spec fn sorted_by_length_desc(s: Seq<TaskRequest>) -> bool {
    forall|i: int, j: int|
        0 <= i <= j < s.len() ==> (#[trigger] s[i]).req.length >= (#[trigger] s[j]).req.length
}

/// Whether `s` holds at most one entry per task.
pub open spec fn distinct_tasks(s: Seq<TaskRequest>) -> bool {
    forall|i: int, j: int|
        0 <= i < j < s.len() ==> (#[trigger] s[i]).task != (#[trigger] s[j]).task
}

/// Whether some entry of `u` is labeled with task `t`.
pub open spec fn task_in(u: Seq<TaskRequest>, t: int) -> bool {
    exists|i: int| 0 <= i < u.len() && (#[trigger] u[i]).task == t
}

/// Whether `u` is a resource-major view of the per-task column `col`:
/// exactly one entry per task of `col`, in any order, each carrying that
/// task's requests.
pub open spec fn usage_matches(col: Seq<Request>, u: Seq<TaskRequest>) -> bool {
    &&& u.len() == col.len()
    &&& forall|i: int|
        0 <= i < u.len() ==> (#[trigger] u[i]).task < col.len() && u[i].req == col[u[i].task as int]
    &&& distinct_tasks(u)
    &&& forall|t: int| 0 <= t < col.len() ==> #[trigger] task_in(u, t)
}

/// Entries with distinct task labels are distinct values, so a usage view
/// has no duplicate entries.
proof fn lemma_distinct_tasks_no_duplicates(u: Seq<TaskRequest>)
    requires
        distinct_tasks(u),
    ensures
        u.no_duplicates(),
{
}

/// Reordering a usage view leaves it a view of the same column.
pub proof fn lemma_usage_matches_reorder(col: Seq<Request>, u1: Seq<TaskRequest>, u2: Seq<TaskRequest>)
    requires
        usage_matches(col, u1),
        u1.to_multiset() == u2.to_multiset(),
    ensures
        usage_matches(col, u2),
{
    broadcast use vstd::seq_lib::group_to_multiset_ensures;

    assert(u1.to_multiset().len() == u1.len());
    assert(u2.to_multiset().len() == u2.len());
    lemma_distinct_tasks_no_duplicates(u1);
    u1.lemma_multiset_has_no_duplicates();
    u2.lemma_multiset_has_no_duplicates_conv();

    assert forall|i: int| 0 <= i < u2.len() implies (#[trigger] u2[i]).task < col.len()
        && u2[i].req == col[u2[i].task as int] by {
        assert(u2.to_multiset().count(u2[i]) > 0);
        assert(u1.contains(u2[i]));
        let j = choose|j: int| 0 <= j < u1.len() && u1[j] == u2[i];
        assert(u1[j].task < col.len());
    }

    assert forall|i: int, j: int| 0 <= i < j < u2.len() implies (#[trigger] u2[i]).task != (
    #[trigger] u2[j]).task by {
        if u2[i].task == u2[j].task {
            if u2[i] == u2[j] {
                assert(!u2.no_duplicates());
            } else {
                assert(u1.contains(u2[i]));
                assert(u1.contains(u2[j]));
                let a = choose|a: int| 0 <= a < u1.len() && u1[a] == u2[i];
                let b = choose|b: int| 0 <= b < u1.len() && u1[b] == u2[j];
                assert(a != b);
                assert(u1[a].task != u1[b].task);
            }
        }
    }

    assert forall|t: int| 0 <= t < col.len() implies #[trigger] task_in(u2, t) by {
        assert(task_in(u1, t));
        let i = choose|i: int| 0 <= i < u1.len() && (#[trigger] u1[i]).task == t;
        assert(u1.to_multiset().count(u1[i]) > 0);
        assert(u2.contains(u1[i]));
        let j = choose|j: int| 0 <= j < u2.len() && u2[j] == u1[i];
        assert(u2[j].task == t);
    }
}

/// Two usage views of the same column hold exactly the same entries.
pub proof fn lemma_usage_matches_same_multiset(
    col: Seq<Request>,
    u1: Seq<TaskRequest>,
    u2: Seq<TaskRequest>,
)
    requires
        usage_matches(col, u1),
        usage_matches(col, u2),
    ensures
        u1.to_multiset() == u2.to_multiset(),
{
    broadcast use vstd::seq_lib::group_to_multiset_ensures;

    lemma_distinct_tasks_no_duplicates(u1);
    lemma_distinct_tasks_no_duplicates(u2);
    u1.lemma_multiset_has_no_duplicates();
    u2.lemma_multiset_has_no_duplicates();

    // each view contains exactly the entries TaskRequest { t, col[t] }
    assert forall|x: TaskRequest| u1.contains(x) <==> u2.contains(x) by {
        if u1.contains(x) {
            let i = choose|i: int| 0 <= i < u1.len() && u1[i] == x;
            assert(task_in(u2, x.task as int));
            let j = choose|j: int| 0 <= j < u2.len() && (#[trigger] u2[j]).task == x.task as int;
            assert(u2[j] == x);
        }
        if u2.contains(x) {
            let i = choose|i: int| 0 <= i < u2.len() && u2[i] == x;
            assert(task_in(u1, x.task as int));
            let j = choose|j: int| 0 <= j < u1.len() && (#[trigger] u1[j]).task == x.task as int;
            assert(u1[j] == x);
        }
    }

    assert forall|x: TaskRequest| u1.to_multiset().count(x) == u2.to_multiset().count(x) by {
        if u1.contains(x) {
            assert(u1.to_multiset().count(x) == 1);
            assert(u2.contains(x));
            assert(u2.to_multiset().count(x) == 1);
        } else {
            assert(u1.to_multiset().count(x) == 0);
            assert(!u2.contains(x));
            assert(u2.to_multiset().count(x) == 0);
        }
    }
    assert(u1.to_multiset() =~= u2.to_multiset());
}

/// Swapping two entries of a sequence keeps its contents.
proof fn lemma_swap_preserves_multiset(s: Seq<TaskRequest>, i: int, j: int)
    requires
        0 <= i < s.len(),
        0 <= j < s.len(),
    ensures
        s.update(i, s[j]).update(j, s[i]).to_multiset() == s.to_multiset(),
{
    broadcast use vstd::seq_lib::group_to_multiset_ensures;
    broadcast use vstd::multiset::group_multiset_axioms;

    if i != j {
        let s1 = s.update(i, s[j]);
        assert(s1[j] == s[j]);
        assert(s1.to_multiset() == s.to_multiset().insert(s[j]).remove(s[i]));
        assert(s1.update(j, s[i]).to_multiset() == s1.to_multiset().insert(s[i]).remove(s1[j]));
        assert(s.to_multiset().contains(s[i]));
        assert(s.to_multiset().insert(s[j]).remove(s[i]).insert(s[i]).remove(s[j]) =~= s.to_multiset());
    } else {
        assert(s.update(i, s[j]).update(j, s[i]) =~= s);
    }
}

/// Any ordered collection of request sets.
pub trait RequestSet {
    /// Whether the collection is ordered by non-increasing maximum request
    /// length.
    spec fn sorted_spec(&self) -> bool;

    /// Whether `self` holds exactly the entries of `other`, in any order.
    spec fn reordering_of(&self, other: &Self) -> bool;

    /// Sorts the collection by the maximum length of each request set, in
    /// non-increasing order, keeping its contents.
    fn sort_by_length(&mut self)
        ensures
            final (self).sorted_spec(),
            final (self).reordering_of(&*old(self)),
    ;
}

impl RequestSet for Vec<TaskRequest> {
    open spec fn sorted_spec(&self) -> bool {
        sorted_by_length_desc(self@)
    }

    open spec fn reordering_of(&self, other: &Self) -> bool {
        self@.to_multiset() == other@.to_multiset()
    }

    /// Insertion sort by non-increasing request length.
    fn sort_by_length(&mut self) {
        let mut i: usize = 1;
        while i < self.len()
            invariant
                1 <= i,
                self@.len() == old(self)@.len(),
                self@.to_multiset() == old(self)@.to_multiset(),
                forall|a: int, b: int|
                    0 <= a <= b < i && b < self@.len() ==> (#[trigger] self@[a]).req.length >= (
                    #[trigger] self@[b]).req.length,
            decreases self@.len() - i,
        {
            let mut j: usize = i;
            while j > 0 && self[j - 1].req.length < self[j].req.length
                invariant
                    0 <= j <= i < self@.len(),
                    self@.len() == old(self)@.len(),
                    self@.to_multiset() == old(self)@.to_multiset(),
                    forall|a: int, b: int|
                        0 <= a <= b <= i && a != j && b != j ==> (#[trigger] self@[a]).req.length
                            >= (#[trigger] self@[b]).req.length,
                    forall|b: int|
                        j < b <= i ==> (#[trigger] self@[b]).req.length <= self@[j as int].req.length,
                decreases j,
            {
                let x = self[j - 1];
                let y = self[j];
                proof {
                    lemma_swap_preserves_multiset(self@, j - 1, j as int);
                }
                self[j - 1] = y;
                self[j] = x;
                j = j - 1;
            }
            i = i + 1;
        }
    }
}

impl<T: RequestSet> RequestSet for RwPair<T> {
    open spec fn sorted_spec(&self) -> bool {
        self.read.sorted_spec() && self.write.sorted_spec()
    }

    open spec fn reordering_of(&self, other: &Self) -> bool {
        self.read.reordering_of(&other.read) && self.write.reordering_of(&other.write)
    }

    /// Sorts the read and write components independently.
    fn sort_by_length(&mut self) {
        self.read.sort_by_length();
        self.write.sort_by_length();
    }
}

/// Marks request kinds: the storage shape for one task's requests to one
/// resource, and the resource-major view built from one storage cell per
/// task.
pub trait RequestKind: Sized {
    /// Storage for the requests from a single task to a single resource.
    type Stored: Copy;

    /// All uses of a given resource: one labeled entry per task.
    type Usage: RequestSet;

    /// The storage cell a fresh resource starts from.
    spec fn empty_spec() -> Self::Stored;

    /// Constructs the empty storage cell.
    fn empty() -> (s: Self::Stored)
        ensures
            s == Self::empty_spec(),
    ;

    /// Whether `u` is a resource-major view of the per-task column `col`:
    /// one labeled entry per task, in any order, each carrying that task's
    /// stored requests.
    spec fn usage_for(col: Seq<Self::Stored>, u: Self::Usage) -> bool;

    /// Collects the per-task column `col` into a resource-major view.
    fn transpose(col: &Vec<Self::Stored>) -> (u: Self::Usage)
        ensures
            Self::usage_for(col@, u),
    ;

    /// Reordering a usage view leaves it a view of the same column.
    proof fn lemma_usage_for_reorder(col: Seq<Self::Stored>, u1: Self::Usage, u2: Self::Usage)
        requires
            Self::usage_for(col, u1),
            u2.reordering_of(&u1),
        ensures
            Self::usage_for(col, u2),
    ;

    /// Whether one storage cell stays within the sizes the analyzers
    /// accept.
    spec fn stored_modest(s: Self::Stored) -> bool;
}

/// Whether one request set stays within the sizes the analyzers accept:
/// at most 256 requests, none longer than 2^20 time units. These margins
/// keep every intermediate quantity of every analyzer within its machine
/// type.
pub open spec fn req_modest(r: Request) -> bool {
    r.num <= 256 && r.length <= 0x10_0000
}

/// Whether a system stays within the sizes the analyzers accept: at most
/// 1024 tasks and resources, every request set modest.
pub open spec fn sys_modest<K: RequestKind>(sys: &System<K>) -> bool {
    &&& sys.spec_tasks().len() <= 1024
    &&& sys.spec_num_rsrc() <= 1024
    &&& forall|t: int, r: int|
        0 <= t < sys.spec_tasks().len() && 0 <= r < sys.spec_num_rsrc()
            ==> K::stored_modest(#[trigger] sys.spec_reqs()[t][r])
}

/// In a modest mutex system, every entry of a usage view for resource `r`
/// carries a modest request set.
pub proof fn lemma_mutex_usage_modest(sys: &System<Mutex>, r: int, u: Vec<TaskRequest>)
    requires
        sys.wf(),
        sys_modest(sys),
        0 <= r < sys.spec_num_rsrc(),
        usage_matches(sys.col(r), u@),
    ensures
        u@.len() == sys.spec_tasks().len(),
        forall|i: int| 0 <= i < u@.len() ==> req_modest((#[trigger] u@[i]).req),
{
    assert forall|i: int| 0 <= i < u@.len() implies req_modest((#[trigger] u@[i]).req) by {
        let t = u@[i].task as int;
        assert(u@[i].req == sys.col(r)[t]);
        assert(sys.col(r)[t] == sys.spec_reqs()[t][r]);
        assert(Mutex::stored_modest(sys.spec_reqs()[t][r]));
    }
}

/// In a modest read-write system, every entry of both components of a
/// usage view for resource `r` carries a modest request set.
pub proof fn lemma_rw_usage_modest(sys: &System<Rw>, r: int, u: RwPair<Vec<TaskRequest>>)
    requires
        sys.wf(),
        sys_modest(sys),
        0 <= r < sys.spec_num_rsrc(),
        Rw::usage_for(sys.col(r), u),
    ensures
        u.read@.len() == sys.spec_tasks().len(),
        u.write@.len() == sys.spec_tasks().len(),
        forall|i: int| 0 <= i < u.read@.len() ==> req_modest((#[trigger] u.read@[i]).req),
        forall|i: int| 0 <= i < u.write@.len() ==> req_modest((#[trigger] u.write@[i]).req),
{
    let rcol = sys.col(r).map_values(|p: RwPair<Request>| p.read);
    let wcol = sys.col(r).map_values(|p: RwPair<Request>| p.write);
    assert forall|i: int| 0 <= i < u.read@.len() implies req_modest((#[trigger] u.read@[i]).req) by {
        let t = u.read@[i].task as int;
        assert(u.read@[i].req == rcol[t]);
        assert(rcol[t] == sys.col(r)[t].read);
        assert(sys.col(r)[t] == sys.spec_reqs()[t][r]);
        assert(Rw::stored_modest(sys.spec_reqs()[t][r]));
    }
    assert forall|i: int| 0 <= i < u.write@.len() implies req_modest((#[trigger] u.write@[i]).req) by {
        let t = u.write@[i].task as int;
        assert(u.write@[i].req == wcol[t]);
        assert(wcol[t] == sys.col(r)[t].write);
        assert(sys.col(r)[t] == sys.spec_reqs()[t][r]);
        assert(Rw::stored_modest(sys.spec_reqs()[t][r]));
    }
}

/// Marker struct for mutex-type requests.
pub struct Mutex;

/// Marker struct for read-write-type requests.
pub struct Rw;

impl RequestKind for Mutex {
    type Stored = Request;

    type Usage = Vec<TaskRequest>;

    open spec fn empty_spec() -> Request {
        Request { num: 0, length: 0 }
    }

    fn empty() -> (s: Request) {
        Request::default()
    }

    open spec fn usage_for(col: Seq<Request>, u: Vec<TaskRequest>) -> bool {
        usage_matches(col, u@)
    }

    fn transpose(col: &Vec<Request>) -> (u: Vec<TaskRequest>) {
        let mut u: Vec<TaskRequest> = Vec::new();
        let mut t: usize = 0;
        while t < col.len()
            invariant
                u@.len() == t <= col@.len(),
                forall|i: int| 0 <= i < t ==> #[trigger] u@[i] == (TaskRequest {
                    task: i as usize,
                    req: col@[i],
                }),
            decreases col@.len() - t,
        {
            u.push(TaskRequest { task: t, req: col[t] });
            t = t + 1;
        }
        proof {
            assert forall|t0: int| 0 <= t0 < col@.len() implies #[trigger] task_in(u@, t0) by {
                assert(u@[t0].task == t0);
            }
        }
        u
    }

    proof fn lemma_usage_for_reorder(col: Seq<Request>, u1: Vec<TaskRequest>, u2: Vec<TaskRequest>) {
        assert(u2.reordering_of(&u1));
        assert(u2@.to_multiset() == u1@.to_multiset());
        lemma_usage_matches_reorder(col, u1@, u2@);
    }

    open spec fn stored_modest(s: Request) -> bool {
        req_modest(s)
    }
}

impl RequestKind for Rw {
    type Stored = RwPair<Request>;

    type Usage = RwPair<Vec<TaskRequest>>;

    open spec fn empty_spec() -> RwPair<Request> {
        RwPair { read: Request { num: 0, length: 0 }, write: Request { num: 0, length: 0 } }
    }

    fn empty() -> (s: RwPair<Request>) {
        RwPair { read: Request::default(), write: Request::default() }
    }

    open spec fn usage_for(col: Seq<RwPair<Request>>, u: RwPair<Vec<TaskRequest>>) -> bool {
        usage_matches(col.map_values(|p: RwPair<Request>| p.read), u.read@) && usage_matches(
            col.map_values(|p: RwPair<Request>| p.write),
            u.write@,
        )
    }

    fn transpose(col: &Vec<RwPair<Request>>) -> (u: RwPair<Vec<TaskRequest>>) {
        let mut read: Vec<TaskRequest> = Vec::new();
        let mut write: Vec<TaskRequest> = Vec::new();
        let mut t: usize = 0;
        while t < col.len()
            invariant
                read@.len() == t <= col@.len(),
                write@.len() == t,
                forall|i: int| 0 <= i < t ==> #[trigger] read@[i] == (TaskRequest {
                    task: i as usize,
                    req: col@[i].read,
                }),
                forall|i: int| 0 <= i < t ==> #[trigger] write@[i] == (TaskRequest {
                    task: i as usize,
                    req: col@[i].write,
                }),
            decreases col@.len() - t,
        {
            let pair = col[t];
            read.push(TaskRequest { task: t, req: pair.read });
            write.push(TaskRequest { task: t, req: pair.write });
            t = t + 1;
        }
        proof {
            let rcol = col@.map_values(|p: RwPair<Request>| p.read);
            let wcol = col@.map_values(|p: RwPair<Request>| p.write);
            assert forall|t0: int| 0 <= t0 < rcol.len() implies #[trigger] task_in(read@, t0) by {
                assert(read@[t0].task == t0);
            }
            assert forall|t0: int| 0 <= t0 < wcol.len() implies #[trigger] task_in(write@, t0) by {
                assert(write@[t0].task == t0);
            }
        }
        RwPair { read, write }
    }

    proof fn lemma_usage_for_reorder(
        col: Seq<RwPair<Request>>,
        u1: RwPair<Vec<TaskRequest>>,
        u2: RwPair<Vec<TaskRequest>>,
    ) {
        assert(u2.reordering_of(&u1));
        assert(u2.read.reordering_of(&u1.read));
        assert(u2.write.reordering_of(&u1.write));
        assert(u2.read@.to_multiset() == u1.read@.to_multiset());
        assert(u2.write@.to_multiset() == u1.write@.to_multiset());
        lemma_usage_matches_reorder(col.map_values(|p: RwPair<Request>| p.read), u1.read@, u2.read@);
        lemma_usage_matches_reorder(
            col.map_values(|p: RwPair<Request>| p.write),
            u1.write@,
            u2.write@,
        );
    }

    open spec fn stored_modest(s: RwPair<Request>) -> bool {
        req_modest(s.read) && req_modest(s.write)
    }
}

/// All uses of a given resource by each task, for requests of kind `K`.
pub type Usage<K> = <K as RequestKind>::Usage;

/// Whether `us` is a full family of sorted usage views for `sys`: one
/// view per resource, each enumerating that resource's column in some
/// order of non-increasing length.
pub open spec fn usages_valid<K: RequestKind>(sys: &System<K>, us: Seq<K::Usage>) -> bool {
    &&& us.len() == sys.spec_num_rsrc()
    &&& forall|r: int|
        0 <= r < us.len() ==> K::usage_for(sys.col(r), #[trigger] us[r]) && us[r].sorted_spec()
}

/// Whether `us` is a full family of sorted usage views for the mutex
/// system `sys`: one view per resource, each enumerating that resource's
/// column in some order of non-increasing length.
pub open spec fn mutex_usages_valid(sys: &System<Mutex>, us: Seq<Vec<TaskRequest>>) -> bool {
    &&& us.len() == sys.spec_num_rsrc()
    &&& forall|r: int|
        0 <= r < us.len() ==> usage_matches(sys.col(r), (#[trigger] us[r])@)
            && sorted_by_length_desc(us[r]@)
}

/// Whether `us` is a full family of sorted usage views for the
/// read-write system `sys`, componentwise.
pub open spec fn rw_usages_valid(sys: &System<Rw>, us: Seq<RwPair<Vec<TaskRequest>>>) -> bool {
    &&& us.len() == sys.spec_num_rsrc()
    &&& forall|r: int|
        0 <= r < us.len() ==> {
            &&& usage_matches(
                sys.col(r).map_values(|p: RwPair<Request>| p.read),
                (#[trigger] us[r]).read@,
            )
            &&& usage_matches(sys.col(r).map_values(|p: RwPair<Request>| p.write), us[r].write@)
            &&& sorted_by_length_desc(us[r].read@)
            &&& sorted_by_length_desc(us[r].write@)
        }
}

/// For a mutex system the generic validity of a family of usage views
/// spells out to [`mutex_usages_valid`].
pub proof fn lemma_mutex_usages_valid(sys: &System<Mutex>, us: Seq<Vec<TaskRequest>>)
    requires
        usages_valid(sys, us),
    ensures
        mutex_usages_valid(sys, us),
{
    assert forall|r: int| 0 <= r < us.len() implies usage_matches(sys.col(r), (#[trigger] us[r])@)
        && sorted_by_length_desc(us[r]@) by {
        assert(Mutex::usage_for(sys.col(r), us[r]));
        assert(us[r].sorted_spec());
    }
}

/// For a read-write system the generic validity of a family of usage
/// views spells out to [`rw_usages_valid`].
pub proof fn lemma_rw_usages_valid(sys: &System<Rw>, us: Seq<RwPair<Vec<TaskRequest>>>)
    requires
        usages_valid(sys, us),
    ensures
        rw_usages_valid(sys, us),
{
    assert forall|r: int| 0 <= r < us.len() implies {
        &&& usage_matches(
            sys.col(r).map_values(|p: RwPair<Request>| p.read),
            (#[trigger] us[r]).read@,
        )
        &&& usage_matches(sys.col(r).map_values(|p: RwPair<Request>| p.write), us[r].write@)
        &&& sorted_by_length_desc(us[r].read@)
        &&& sorted_by_length_desc(us[r].write@)
    } by {
        assert(Rw::usage_for(sys.col(r), us[r]));
        assert(us[r].sorted_spec());
        assert(us[r].read.sorted_spec());
        assert(us[r].write.sorted_spec());
    }
}

/// Task system with a set of requests.
///
/// `K` selects the storage shape for the requests of one task to one
/// resource and is not itself stored.
pub struct System<K: RequestKind> {
    tasks: Vec<crate::task::Task>,
    num_rsrc: usize,
    reqs: Vec<Vec<K::Stored>>,  // one row per task, one cell per resource
}

impl<K: RequestKind> System<K> {
    /// The task-set, in index order.
    pub closed spec fn spec_tasks(&self) -> Seq<crate::task::Task> {
        self.tasks@
    }

    /// The number of resources.
    pub closed spec fn spec_num_rsrc(&self) -> int {
        self.num_rsrc as int
    }

    /// The stored requests: one row per task, one cell per resource.
    pub closed spec fn spec_reqs(&self) -> Seq<Seq<K::Stored>> {
        self.reqs@.map_values(|row: Vec<K::Stored>| row@)
    }

    /// Structural soundness: one row of requests per task, one cell per
    /// resource in every row.
    pub open spec fn wf(&self) -> bool {
        &&& self.spec_reqs().len() == self.spec_tasks().len()
        &&& forall|t: int|
            0 <= t < self.spec_reqs().len() ==> (#[trigger] self.spec_reqs()[t]).len()
                == self.spec_num_rsrc()
    }

    /// The per-task column of stored requests for resource `r`.
    pub open spec fn col(&self, r: int) -> Seq<K::Stored> {
        Seq::new(self.spec_tasks().len() as nat, |t: int| self.spec_reqs()[t][r])
    }

    /// Constructs a new `System` with the given task-set.
    ///
    /// The task-set cannot be modified afterwards. The returned system has
    /// no resources and therefore no requests.
    pub fn new(tasks: Vec<crate::task::Task>) -> (s: Self)
        ensures
            s.wf(),
            s.spec_tasks() == tasks@,
            s.spec_num_rsrc() == 0,
    {
        let n = tasks.len();
        let mut reqs: Vec<Vec<K::Stored>> = Vec::new();
        let mut i: usize = 0;
        while i < n
            invariant
                reqs@.len() == i <= n,
                forall|j: int| 0 <= j < i ==> (#[trigger] reqs@[j])@.len() == 0,
            decreases n - i,
        {
            reqs.push(Vec::new());
            i = i + 1;
        }
        System { num_rsrc: 0, reqs, tasks }
    }

    /// Retrieves the task at index `i`.
    pub fn task(&self, i: usize) -> (t: &crate::task::Task)
        requires
            i < self.spec_tasks().len(),
        ensures
            *t == self.spec_tasks()[i as int],
    {
        &self.tasks[i]
    }

    /// Returns the number of tasks in the system.
    pub fn num_tasks(&self) -> (n: usize)
        ensures
            n == self.spec_tasks().len(),
    {
        self.tasks.len()
    }

    /// Returns the number of resources in the system.
    pub fn num_rsrc(&self) -> (n: usize)
        ensures
            n == self.spec_num_rsrc(),
    {
        self.num_rsrc
    }

    /// Retrieves the list of requests made by task `i`, one cell per
    /// resource.
    pub fn reqs_by(&self, i: usize) -> (row: &Vec<K::Stored>)
        requires
            self.wf(),
            i < self.spec_tasks().len(),
        ensures
            row@ == self.spec_reqs()[i as int],
    {
        &self.reqs[i]
    }

    /// Creates a new resource and returns its index.
    ///
    /// Each task gains one default-valued storage cell for the new
    /// resource.
    pub fn add_rsrc(&mut self) -> (id: usize)
        requires
            old(self).wf(),
            old(self).spec_num_rsrc() + 1 <= usize::MAX,
        ensures
            final (self).wf(),
            id == old(self).spec_num_rsrc(),
            final (self).spec_tasks() == old(self).spec_tasks(),
            final (self).spec_num_rsrc() == old(self).spec_num_rsrc() + 1,
            forall|t: int|
                0 <= t < old(self).spec_tasks().len() ==> #[trigger] final (self).spec_reqs()[t]
                    == old(self).spec_reqs()[t].push(K::empty_spec()),
    {
        let id = self.num_rsrc;
        self.num_rsrc = self.num_rsrc + 1;

        let n = self.reqs.len();
        let mut t: usize = 0;
        while t < n
            invariant
                t <= n,
                n == self.reqs@.len() == old(self).reqs@.len(),
                self.tasks == old(self).tasks,
                self.num_rsrc == old(self).num_rsrc + 1,
                forall|j: int|
                    0 <= j < t ==> #[trigger] self.reqs@[j]@ == old(self).reqs@[j]@.push(
                        K::empty_spec(),
                    ),
                forall|j: int| t <= j < n ==> #[trigger] self.reqs@[j] == old(self).reqs@[j],
            decreases n - t,
        {
            let cell = K::empty();
            self.reqs[t].push(cell);
            t = t + 1;
        }

        proof {
            assert forall|t0: int| 0 <= t0 < old(self).spec_tasks().len() implies #[trigger] self
                .spec_reqs()[t0] == old(self).spec_reqs()[t0].push(K::empty_spec()) by {
                assert(self.spec_reqs()[t0] == self.reqs@[t0]@);
                assert(old(self).spec_reqs()[t0] == old(self).reqs@[t0]@);
            }
            assert forall|t0: int| 0 <= t0 < self.spec_reqs().len() implies (
            #[trigger] self.spec_reqs()[t0]).len() == self.spec_num_rsrc() by {
                assert(self.spec_reqs()[t0] == self.reqs@[t0]@);
                assert(old(self).spec_reqs()[t0] == old(self).reqs@[t0]@);
                assert(old(self).spec_reqs()[t0].len() == old(self).spec_num_rsrc());
            }
        }

        id
    }

    /// Returns uses of each resource grouped by their index.
    ///
    /// This differs from [`System::reqs_by`] in that the latter returns
    /// uses of each resource from a given task as opposed to globally.
    pub fn by_rsrc(&self) -> (out: Vec<K::Usage>)
        requires
            self.wf(),
        ensures
            out@.len() == self.spec_num_rsrc(),
            forall|r: int|
                0 <= r < self.spec_num_rsrc() ==> K::usage_for(self.col(r), #[trigger] out@[r]),
    {
        let mut out: Vec<K::Usage> = Vec::new();
        let mut r: usize = 0;
        while r < self.num_rsrc
            invariant
                self.wf(),
                out@.len() == r <= self.spec_num_rsrc(),
                forall|j: int| 0 <= j < r ==> K::usage_for(self.col(j), #[trigger] out@[j]),
            decreases self.spec_num_rsrc() - r,
        {
            let n = self.tasks.len();
            let mut column: Vec<K::Stored> = Vec::new();
            let mut t: usize = 0;
            while t < n
                invariant
                    self.wf(),
                    r < self.spec_num_rsrc(),
                    n == self.spec_tasks().len(),
                    column@.len() == t <= n,
                    forall|j: int| 0 <= j < t ==> #[trigger] column@[j] == self.spec_reqs()[j][r as int],
                decreases n - t,
            {
                proof {
                    assert(self.spec_reqs()[t as int] == self.reqs@[t as int]@);
                    assert(self.spec_reqs()[t as int].len() == self.spec_num_rsrc());
                }
                let cell = self.reqs[t][r];
                column.push(cell);
                t = t + 1;
            }
            proof {
                assert(column@ =~= self.col(r as int));
            }
            out.push(K::transpose(&column));
            r = r + 1;
        }
        out
    }

    /// Runs analyzer `an` on the system and returns its results for each
    /// task, in index order.
    ///
    /// The resource-major usage views are built, each sorted by
    /// non-increasing request length, then the analyzer's single pass runs
    /// once per task and its aggregation pass once over all results. Which
    /// valid family of sorted views the result is read off from does not
    /// matter: every one gives the same analysis.
    pub fn run<A: ObliviousAnalyzer<K>>(&self, an: &A) -> (out: Vec<ObliviousData>)
        requires
            self.wf(),
            an.admissible(self),
        ensures
            out@.len() == self.spec_tasks().len(),
            exists|us: Seq<K::Usage>| #[trigger] usages_valid(self, us),
            forall|us: Seq<K::Usage>, t: int|
                usages_valid(self, us) && 0 <= t < self.spec_tasks().len() ==> (
                #[trigger] analysis_of(an, self, us)[t]) == out@[t]@,
    {
        let mut by_rsrc = self.by_rsrc();

        let mut r: usize = 0;
        while r < by_rsrc.len()
            invariant
                self.wf(),
                by_rsrc@.len() == self.spec_num_rsrc(),
                forall|j: int|
                    0 <= j < by_rsrc@.len() ==> K::usage_for(self.col(j), #[trigger] by_rsrc@[j]),
                forall|j: int| 0 <= j < r ==> (#[trigger] by_rsrc@[j]).sorted_spec(),
            decreases by_rsrc@.len() - r,
        {
            let ghost prev = by_rsrc@[r as int];
            by_rsrc[r].sort_by_length();
            proof {
                K::lemma_usage_for_reorder(self.col(r as int), prev, by_rsrc@[r as int]);
            }
            r = r + 1;
        }

        let n = self.tasks.len();
        let mut out: Vec<ObliviousData> = Vec::new();
        let mut t: usize = 0;
        while t < n
            invariant
                self.wf(),
                an.admissible(self),
                n == self.spec_tasks().len(),
                by_rsrc@.len() == self.spec_num_rsrc(),
                forall|j: int|
                    0 <= j < by_rsrc@.len() ==> K::usage_for(self.col(j), #[trigger] by_rsrc@[j]),
                forall|j: int| 0 <= j < by_rsrc@.len() ==> (#[trigger] by_rsrc@[j]).sorted_spec(),
                out@.len() == t <= n,
                forall|j: int|
                    0 <= j < t ==> (#[trigger] out@[j])@ == an.pass_spec(j, self, by_rsrc@),
                forall|j: int| 0 <= j < t ==> data_modest(#[trigger] out@[j]),
            decreases n - t,
        {
            let d = an.pass(t, self, &by_rsrc);
            out.push(d);
            t = t + 1;
        }

        let ghost us0 = by_rsrc@;
        let ghost mid = out@;

        an.post(self, &mut out);

        proof {
            let nn = self.spec_tasks().len();
            assert(usages_valid(self, us0));
            let canon = Seq::new(nn, |t: int| data_of(an.pass_spec(t, self, us0)));
            assert(mid =~= canon);
            assert forall|us: Seq<K::Usage>, t: int|
                usages_valid(self, us) && 0 <= t < nn implies (#[trigger] analysis_of(
                an,
                self,
                us,
            )[t]) == out@[t]@ by {
                assert forall|t2: int| 0 <= t2 < nn implies #[trigger] an.pass_spec(t2, self, us)
                    == an.pass_spec(t2, self, us0) by {
                    an.pass_deterministic(t2, self, us0, us);
                }
                assert(Seq::new(nn, |t2: int| data_of(an.pass_spec(t2, self, us))) =~= canon);
                assert(analysis_of(an, self, us) == an.post_spec(self, mid));
            }
        }

        out
    }
}

/// The result of merging the request set `req` into the slot `slot`:
/// counts add up, lengths take the maximum.
pub open spec fn merged_req(slot: Request, req: Request) -> Request {
    Request {
        num: (slot.num + req.num) as usize,
        length: if slot.length >= req.length {
            slot.length
        } else {
            req.length
        },
    }
}

impl System<Mutex> {
    /// Combines the set of requests `req` from the task at index `task` to
    /// the resource at index `rsrc` with the one already present in the
    /// system: counts are summed and lengths take the maximum.
    pub fn add_req(&mut self, task: usize, rsrc: usize, req: Request)
        requires
            old(self).wf(),
            task < old(self).spec_tasks().len(),
            rsrc < old(self).spec_num_rsrc(),
            old(self).spec_reqs()[task as int][rsrc as int].num + req.num <= usize::MAX,
        ensures
            final (self).wf(),
            final (self).spec_tasks() == old(self).spec_tasks(),
            final (self).spec_num_rsrc() == old(self).spec_num_rsrc(),
            final (self).spec_reqs()[task as int][rsrc as int] == merged_req(
                old(self).spec_reqs()[task as int][rsrc as int],
                req,
            ),
            forall|t: int|
                0 <= t < old(self).spec_tasks().len() && t != task ==> #[trigger] final (self).spec_reqs()[t] == old(self).spec_reqs()[t],
            forall|r: int|
                0 <= r < old(self).spec_num_rsrc() && r != rsrc ==> #[trigger] final (self).spec_reqs()[task as int][r] == old(self).spec_reqs()[task as int][r],
    {
        proof {
            assert(self.spec_reqs()[task as int] == self.reqs@[task as int]@);
            assert(self.spec_reqs()[task as int].len() == self.spec_num_rsrc());
        }
        let slot = self.reqs[task][rsrc];
        let length = if slot.length >= req.length {
            slot.length
        } else {
            req.length
        };
        self.reqs[task][rsrc] = Request { num: slot.num + req.num, length };
        proof {
            assert forall|t: int| 0 <= t < old(self).spec_tasks().len() && t != task implies #[trigger] self
                .spec_reqs()[t] == old(self).spec_reqs()[t] by {
                assert(self.spec_reqs()[t] == self.reqs@[t]@);
                assert(old(self).spec_reqs()[t] == old(self).reqs@[t]@);
            }
            assert(self.spec_reqs()[task as int] == self.reqs@[task as int]@);
            assert forall|t0: int| 0 <= t0 < self.spec_reqs().len() implies (
            #[trigger] self.spec_reqs()[t0]).len() == self.spec_num_rsrc() by {
                assert(self.spec_reqs()[t0] == self.reqs@[t0]@);
                assert(old(self).spec_reqs()[t0] == old(self).reqs@[t0]@);
                assert(old(self).spec_reqs()[t0].len() == old(self).spec_num_rsrc());
            }
        }
    }
}

impl System<Rw> {
    /// Combines the set of read requests `req` from the task at index
    /// `task` to the resource at index `rsrc` with the one already present
    /// in the system: counts are summed and lengths take the maximum.
    pub fn add_read(&mut self, task: usize, rsrc: usize, req: Request)
        requires
            old(self).wf(),
            task < old(self).spec_tasks().len(),
            rsrc < old(self).spec_num_rsrc(),
            old(self).spec_reqs()[task as int][rsrc as int].read.num + req.num <= usize::MAX,
        ensures
            final (self).wf(),
            final (self).spec_tasks() == old(self).spec_tasks(),
            final (self).spec_num_rsrc() == old(self).spec_num_rsrc(),
            final (self).spec_reqs()[task as int][rsrc as int] == (RwPair {
                read: merged_req(old(self).spec_reqs()[task as int][rsrc as int].read, req),
                write: old(self).spec_reqs()[task as int][rsrc as int].write,
            }),
            forall|t: int|
                0 <= t < old(self).spec_tasks().len() && t != task ==> #[trigger] final (self).spec_reqs()[t] == old(self).spec_reqs()[t],
            forall|r: int|
                0 <= r < old(self).spec_num_rsrc() && r != rsrc ==> #[trigger] final (self).spec_reqs()[task as int][r] == old(self).spec_reqs()[task as int][r],
    {
        proof {
            assert(self.spec_reqs()[task as int] == self.reqs@[task as int]@);
            assert(self.spec_reqs()[task as int].len() == self.spec_num_rsrc());
        }
        let pair = self.reqs[task][rsrc];
        let length = if pair.read.length >= req.length {
            pair.read.length
        } else {
            req.length
        };
        self.reqs[task][rsrc] = RwPair {
            read: Request { num: pair.read.num + req.num, length },
            write: pair.write,
        };
        proof {
            self.lemma_one_slot_changed(*old(self), task as int, rsrc as int);
        }
    }

    /// Combines the set of write requests `req` from the task at index
    /// `task` to the resource at index `rsrc` with the one already present
    /// in the system: counts are summed and lengths take the maximum.
    pub fn add_write(&mut self, task: usize, rsrc: usize, req: Request)
        requires
            old(self).wf(),
            task < old(self).spec_tasks().len(),
            rsrc < old(self).spec_num_rsrc(),
            old(self).spec_reqs()[task as int][rsrc as int].write.num + req.num <= usize::MAX,
        ensures
            final (self).wf(),
            final (self).spec_tasks() == old(self).spec_tasks(),
            final (self).spec_num_rsrc() == old(self).spec_num_rsrc(),
            final (self).spec_reqs()[task as int][rsrc as int] == (RwPair {
                read: old(self).spec_reqs()[task as int][rsrc as int].read,
                write: merged_req(old(self).spec_reqs()[task as int][rsrc as int].write, req),
            }),
            forall|t: int|
                0 <= t < old(self).spec_tasks().len() && t != task ==> #[trigger] final (self).spec_reqs()[t] == old(self).spec_reqs()[t],
            forall|r: int|
                0 <= r < old(self).spec_num_rsrc() && r != rsrc ==> #[trigger] final (self).spec_reqs()[task as int][r] == old(self).spec_reqs()[task as int][r],
    {
        proof {
            assert(self.spec_reqs()[task as int] == self.reqs@[task as int]@);
            assert(self.spec_reqs()[task as int].len() == self.spec_num_rsrc());
        }
        let pair = self.reqs[task][rsrc];
        let length = if pair.write.length >= req.length {
            pair.write.length
        } else {
            req.length
        };
        self.reqs[task][rsrc] = RwPair {
            read: pair.read,
            write: Request { num: pair.write.num + req.num, length },
        };
        proof {
            self.lemma_one_slot_changed(*old(self), task as int, rsrc as int);
        }
    }

    /// Bridges an update of one storage cell from the underlying vectors
    /// to the request view.
    proof fn lemma_one_slot_changed(&self, prev: Self, task: int, rsrc: int)
        requires
            prev.wf(),
            0 <= task < prev.spec_tasks().len(),
            0 <= rsrc < prev.spec_num_rsrc(),
            self.reqs@.len() == prev.reqs@.len(),
            self.reqs@[task]@ == prev.reqs@[task]@.update(rsrc, self.reqs@[task]@[rsrc]),
            forall|t: int| 0 <= t < self.reqs@.len() && t != task ==> self.reqs@[t] == prev.reqs@[t],
            self.tasks == prev.tasks,
            self.num_rsrc == prev.num_rsrc,
        ensures
            self.wf(),
            forall|t: int|
                0 <= t < prev.spec_tasks().len() && t != task ==> #[trigger] self.spec_reqs()[t]
                    == prev.spec_reqs()[t],
            forall|r: int|
                0 <= r < prev.spec_num_rsrc() && r != rsrc ==> #[trigger] self.spec_reqs()[task][r]
                    == prev.spec_reqs()[task][r],
            self.spec_reqs()[task][rsrc] == self.reqs@[task]@[rsrc],
    {
        assert forall|t: int| 0 <= t < prev.spec_tasks().len() && t != task implies #[trigger] self
            .spec_reqs()[t] == prev.spec_reqs()[t] by {
            assert(self.spec_reqs()[t] == self.reqs@[t]@);
            assert(prev.spec_reqs()[t] == prev.reqs@[t]@);
        }
        assert(self.spec_reqs()[task] == self.reqs@[task]@);
        assert(prev.spec_reqs()[task] == prev.reqs@[task]@);
        assert forall|t0: int| 0 <= t0 < self.spec_reqs().len() implies (
        #[trigger] self.spec_reqs()[t0]).len() == self.spec_num_rsrc() by {
            assert(self.spec_reqs()[t0] == self.reqs@[t0]@);
            assert(prev.spec_reqs()[t0] == prev.reqs@[t0]@);
            assert(prev.spec_reqs()[t0].len() == prev.spec_num_rsrc());
        }
    }

    /// Collapses the read-write request system into a mutex request
    /// system.
    ///
    /// The result system contains the same number of requests; every
    /// request is treated as mutually exclusive, whether originally read
    /// or write. Each task's read and write request sets to one resource
    /// merge into a single mutex request set: their counts add up and the
    /// length is the larger of the two, each sub-request keeping its own
    /// length.
    pub fn as_mutex(&self) -> (out: System<Mutex>)
        requires
            self.wf(),
            forall|t: int, r: int|
                0 <= t < self.spec_tasks().len() && 0 <= r < self.spec_num_rsrc() ==> (
                #[trigger] self.spec_reqs()[t][r]).read.num + self.spec_reqs()[t][r].write.num
                    <= usize::MAX,
        ensures
            out.wf(),
            out.spec_tasks() == self.spec_tasks(),
            out.spec_num_rsrc() == self.spec_num_rsrc(),
            forall|t: int, r: int|
                0 <= t < self.spec_tasks().len() && 0 <= r < self.spec_num_rsrc()
                    ==> #[trigger] out.spec_reqs()[t][r] == merged_req(
                    Request {
                        num: self.spec_reqs()[t][r].read.num,
                        length: self.spec_reqs()[t][r].read.length,
                    },
                    self.spec_reqs()[t][r].write,
                ),
    {
        let n = self.tasks.len();
        let mut tasks: Vec<crate::task::Task> = Vec::new();
        let mut i: usize = 0;
        while i < n
            invariant
                tasks@.len() == i <= n,
                n == self.spec_tasks().len(),
                forall|j: int| 0 <= j < i ==> #[trigger] tasks@[j] == self.spec_tasks()[j],
            decreases n - i,
        {
            let t = self.tasks[i];
            tasks.push(t);
            i = i + 1;
        }
        proof {
            assert(tasks@ =~= self.spec_tasks());
        }

        let mut reqs: Vec<Vec<Request>> = Vec::new();
        let mut t: usize = 0;
        while t < n
            invariant
                self.wf(),
                reqs@.len() == t <= n,
                n == self.spec_tasks().len(),
                forall|t0: int, r0: int|
                    0 <= t0 < self.spec_tasks().len() && 0 <= r0 < self.spec_num_rsrc() ==> (
                    #[trigger] self.spec_reqs()[t0][r0]).read.num
                        + self.spec_reqs()[t0][r0].write.num <= usize::MAX,
                forall|j: int| 0 <= j < t ==> (#[trigger] reqs@[j])@.len() == self.spec_num_rsrc(),
                forall|j: int, r0: int|
                    #![trigger reqs@[j]@[r0]]
                    0 <= j < t && 0 <= r0 < self.spec_num_rsrc() ==> reqs@[j]@[r0]
                        == merged_req(
                        Request {
                            num: self.spec_reqs()[j][r0].read.num,
                            length: self.spec_reqs()[j][r0].read.length,
                        },
                        self.spec_reqs()[j][r0].write,
                    ),
            decreases n - t,
        {
            let mut row: Vec<Request> = Vec::new();
            let mut r: usize = 0;
            while r < self.num_rsrc
                invariant
                    self.wf(),
                    t < self.spec_tasks().len(),
                    row@.len() == r <= self.spec_num_rsrc(),
                    forall|t0: int, r0: int|
                        0 <= t0 < self.spec_tasks().len() && 0 <= r0 < self.spec_num_rsrc() ==> (
                        #[trigger] self.spec_reqs()[t0][r0]).read.num
                            + self.spec_reqs()[t0][r0].write.num <= usize::MAX,
                    forall|r0: int|
                        0 <= r0 < r ==> #[trigger] row@[r0] == merged_req(
                            Request {
                                num: self.spec_reqs()[t as int][r0].read.num,
                                length: self.spec_reqs()[t as int][r0].read.length,
                            },
                            self.spec_reqs()[t as int][r0].write,
                        ),
                decreases self.spec_num_rsrc() - r,
            {
                proof {
                    assert(self.spec_reqs()[t as int] == self.reqs@[t as int]@);
                    assert(self.spec_reqs()[t as int].len() == self.spec_num_rsrc());
                }
                let pair = self.reqs[t][r];
                let length = if pair.read.length >= pair.write.length {
                    pair.read.length
                } else {
                    pair.write.length
                };
                row.push(Request { num: pair.read.num + pair.write.num, length });
                r = r + 1;
            }
            reqs.push(row);
            t = t + 1;
        }

        let out = System::<Mutex> { tasks, num_rsrc: self.num_rsrc, reqs };
        proof {
            assert forall|t0: int| 0 <= t0 < out.spec_reqs().len() implies (
            #[trigger] out.spec_reqs()[t0]).len() == out.spec_num_rsrc() by {
                assert(out.spec_reqs()[t0] == out.reqs@[t0]@);
            }
            assert forall|t0: int, r0: int|
                0 <= t0 < self.spec_tasks().len() && 0 <= r0 < self.spec_num_rsrc()
                    implies #[trigger] out.spec_reqs()[t0][r0] == merged_req(
                Request {
                    num: self.spec_reqs()[t0][r0].read.num,
                    length: self.spec_reqs()[t0][r0].read.length,
                },
                self.spec_reqs()[t0][r0].write,
            ) by {
                assert(out.spec_reqs()[t0] == out.reqs@[t0]@);
            }
        }
        out
    }
}

} // verus!
