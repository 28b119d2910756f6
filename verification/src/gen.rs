//! Hooks for task-set and request generators.
//!
//! The sampling itself (utilizations, periods, request lengths) happens
//! outside this crate; these hooks let a generator fill a
//! [`System`] of either request kind with the values it drew.

use vstd::prelude::*;

use crate::rsrc::{System, RequestKind, Request, RwPair, Mutex, Rw, merged_req};

verus! {

/// Marks request kinds whose systems can be filled by a generator.
pub trait RequestGen: RequestKind {
    /// Type that parameterizes the final placement of each request.
    type Params;

    /// Whether the slot at `(task, rsrc)` can absorb `req` under
    /// `params` without its request count overflowing.
    spec fn can_add(
        sys: &System<Self>,
        task: int,
        rsrc: int,
        req: Request,
        params: Self::Params,
    ) -> bool;

    /// The storage cell that absorbing `req` under `params` turns `prev`
    /// into.
    spec fn added(prev: Self::Stored, req: Request, params: Self::Params) -> Self::Stored;

    /// Adds request `req` by the task at index `task` for the resource at
    /// index `rsrc` to task system `sys`, under parameters given by
    /// `params`.
    fn add_to(sys: &mut System<Self>, task: usize, rsrc: usize, req: Request, params: Self::Params)
        requires
            old(sys).wf(),
            task < old(sys).spec_tasks().len(),
            rsrc < old(sys).spec_num_rsrc(),
            Self::can_add(&*old(sys), task as int, rsrc as int, req, params),
        ensures
            final (sys).wf(),
            final (sys).spec_tasks() == old(sys).spec_tasks(),
            final (sys).spec_num_rsrc() == old(sys).spec_num_rsrc(),
            final (sys).spec_reqs()[task as int][rsrc as int] == Self::added(
                old(sys).spec_reqs()[task as int][rsrc as int],
                req,
                params,
            ),
            forall|t: int|
                0 <= t < old(sys).spec_tasks().len() && t != task ==> #[trigger] final (sys).spec_reqs()[t] == old(sys).spec_reqs()[t],
            forall|r: int|
                0 <= r < old(sys).spec_num_rsrc() && r != rsrc ==> #[trigger] final (sys).spec_reqs()[task as int][r] == old(sys).spec_reqs()[task as int][r],
    ;
}

impl RequestGen for Mutex {
    type Params = ();

    open spec fn can_add(sys: &System<Mutex>, task: int, rsrc: int, req: Request, params: ()) -> bool {
        sys.spec_reqs()[task][rsrc].num + req.num <= usize::MAX
    }

    open spec fn added(prev: Request, req: Request, params: ()) -> Request {
        merged_req(prev, req)
    }

    /// Simply adds the request as a mutex request.
    fn add_to(sys: &mut System<Mutex>, task: usize, rsrc: usize, req: Request, _params: ()) {
        sys.add_req(task, rsrc, req);
    }
}

impl RequestGen for Rw {
    /// Whether the request is placed as a write request; the caller draws
    /// this, typically at a configured write probability.
    type Params = bool;

    open spec fn can_add(
        sys: &System<Rw>,
        task: int,
        rsrc: int,
        req: Request,
        write: bool,
    ) -> bool {
        if write {
            sys.spec_reqs()[task][rsrc].write.num + req.num <= usize::MAX
        } else {
            sys.spec_reqs()[task][rsrc].read.num + req.num <= usize::MAX
        }
    }

    open spec fn added(prev: RwPair<Request>, req: Request, write: bool) -> RwPair<Request> {
        if write {
            RwPair { read: prev.read, write: merged_req(prev.write, req) }
        } else {
            RwPair { read: merged_req(prev.read, req), write: prev.write }
        }
    }

    /// Adds the request as a write request when `write` says so and as a
    /// read request otherwise.
    fn add_to(sys: &mut System<Rw>, task: usize, rsrc: usize, req: Request, write: bool) {
        if write {
            sys.add_write(task, rsrc, req);
        } else {
            sys.add_read(task, rsrc, req);
        }
    }
}

} // verus!
