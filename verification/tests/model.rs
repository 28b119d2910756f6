use rtsched::task::Task;
use rtsched::rsrc::{System, Mutex, Rw, Request, TaskRequest, RequestSet};
use rtsched::sharing::{Bound, Limits, BoundBlocking};
use rtsched::gen::RequestGen;

fn tr(task: usize, num: usize, length: u64) -> TaskRequest {
    TaskRequest { task, req: Request { num, length } }
}

#[test]
fn bound_addition_commutes_and_associates() {
    let a = Bound { count: 1, length: 10 };
    let b = Bound { count: 2, length: 3 };
    let c = Bound { count: 5, length: 7 };
    assert_eq!(a.add(b), b.add(a));
    assert_eq!(a.add(b).add(c), a.add(b.add(c)));
    let zero = Bound::zero();
    assert_eq!(a.add(zero), a);
    assert_eq!(zero.add(a), a);
}

#[test]
fn bound_scaling_distributes() {
    let a = Bound { count: 1, length: 10 };
    let b = Bound { count: 2, length: 3 };
    assert_eq!(a.add(b).mul(4), a.mul(4).add(b.mul(4)));
    assert_eq!(Bound::new(6).mul(3), Bound { count: 3, length: 18 });
}

#[test]
fn limits_scale_pointwise() {
    let l = Limits { total: 3, per_task: 2 }.mul(5);
    assert_eq!(l.total, 15);
    assert_eq!(l.per_task, 10);
}

#[test]
fn bound_blocking_greedy_accounting() {
    // sorted by decreasing length; own entries are skipped and the longest
    // competitors are attributed first
    let reqs = vec![tr(0, 1, 10), tr(1, 1, 8), tr(2, 1, 5)];
    let b = reqs.bound_blocking(0, Limits { total: 2, per_task: 1 });
    assert_eq!(b, Bound { count: 2, length: 13 });
    let b = reqs.bound_blocking(1, Limits { total: 2, per_task: 1 });
    assert_eq!(b, Bound { count: 2, length: 15 });
    let b = reqs.bound_blocking(0, Limits { total: 3, per_task: 2 });
    assert_eq!(b, Bound { count: 3, length: 21 });
}

#[test]
fn bound_blocking_monotone_in_limits() {
    let reqs = vec![tr(1, 2, 9), tr(2, 1, 9), tr(3, 1, 2)];
    // growing the total budget never shrinks the bound
    let mut last = Bound::zero();
    for total in 0..5usize {
        let b = reqs.bound_blocking(0, Limits { total, per_task: 2 });
        assert!(b.length >= last.length);
        assert!(b.count >= last.count);
        last = b;
    }
    // growing the per-task allowance never shrinks the bound either
    let mut last = Bound::zero();
    for per_task in 0..4usize {
        let b = reqs.bound_blocking(0, Limits { total: 3, per_task });
        assert!(b.length >= last.length);
        assert!(b.count >= last.count);
        last = b;
    }
}

#[test]
fn bound_blocking_sorted_reordering_agrees() {
    // two arrangements of the same entries, both sorted by length: ties may
    // appear in any order without changing the bound
    let a = vec![tr(1, 1, 9), tr(0, 1, 9), tr(2, 1, 9), tr(3, 1, 2)];
    let b = vec![tr(2, 1, 9), tr(1, 1, 9), tr(0, 1, 9), tr(3, 1, 2)];
    let limits = Limits { total: 2, per_task: 1 };
    assert_eq!(a.bound_blocking(0, limits), b.bound_blocking(0, limits));
    assert_eq!(a.bound_blocking(3, limits), b.bound_blocking(3, limits));
}

#[test]
fn bound_blocking_needs_sorted_input() {
    // the sortedness precondition is real: on an unsorted list the greedy
    // walk attributes the wrong requests and underestimates
    let unsorted = vec![tr(1, 1, 1), tr(2, 1, 10)];
    let sorted = vec![tr(2, 1, 10), tr(1, 1, 1)];
    let limits = Limits { total: 1, per_task: 1 };
    let wrong = unsorted.bound_blocking(0, limits);
    let right = sorted.bound_blocking(0, limits);
    assert_eq!(right, Bound { count: 1, length: 10 });
    assert_ne!(wrong, right);
}

#[test]
fn sort_by_length_orders_descending() {
    let mut reqs = vec![tr(0, 1, 3), tr(1, 1, 12), tr(2, 1, 7)];
    reqs.sort_by_length();
    let lengths: Vec<u64> = reqs.iter().map(|r| r.req.length).collect();
    assert_eq!(lengths, vec![12, 7, 3]);
    let tasks: Vec<usize> = reqs.iter().map(|r| r.task).collect();
    assert_eq!(tasks, vec![1, 2, 0]);
}

#[test]
fn requests_merge_on_add() {
    let tasks = vec![Task::new(1, 10), Task::new(1, 10)];
    let mut sys: System<Mutex> = System::new(tasks);
    let r = sys.add_rsrc();
    sys.add_req(0, r, Request { num: 2, length: 4 });
    sys.add_req(0, r, Request { num: 3, length: 9 });
    sys.add_req(0, r, Request { num: 1, length: 2 });
    let row = sys.reqs_by(0);
    assert_eq!(row[r].num, 6);
    assert_eq!(row[r].length, 9);
    assert_eq!(sys.reqs_by(1)[r].num, 0);
}

#[test]
fn as_mutex_preserves_counts_and_lengths() {
    let tasks = vec![Task::new(1, 10), Task::new(1, 10)];
    let mut sys: System<Rw> = System::new(tasks);
    let r0 = sys.add_rsrc();
    let r1 = sys.add_rsrc();
    sys.add_read(0, r0, Request { num: 2, length: 7 });
    sys.add_write(0, r0, Request { num: 3, length: 4 });
    sys.add_write(1, r1, Request { num: 1, length: 11 });

    let collapsed = sys.as_mutex();
    assert_eq!(collapsed.num_tasks(), 2);
    assert_eq!(collapsed.num_rsrc(), 2);
    // counts add up; the slot keeps the longer sub-request's own length
    assert_eq!(collapsed.reqs_by(0)[r0].num, 5);
    assert_eq!(collapsed.reqs_by(0)[r0].length, 7);
    assert_eq!(collapsed.reqs_by(1)[r1].num, 1);
    assert_eq!(collapsed.reqs_by(1)[r1].length, 11);
    assert_eq!(collapsed.reqs_by(1)[r0].num, 0);
    assert_eq!(collapsed.reqs_by(0)[r1].num, 0);
}

#[test]
fn request_gen_places_by_kind() {
    let tasks = vec![Task::new(1, 10)];
    let mut msys: System<Mutex> = System::new(tasks.clone());
    let r = msys.add_rsrc();
    Mutex::add_to(&mut msys, 0, r, Request { num: 1, length: 3 }, ());
    assert_eq!(msys.reqs_by(0)[r].num, 1);

    let mut rsys: System<Rw> = System::new(tasks);
    let r = rsys.add_rsrc();
    Rw::add_to(&mut rsys, 0, r, Request { num: 1, length: 3 }, true);
    Rw::add_to(&mut rsys, 0, r, Request { num: 2, length: 5 }, false);
    assert_eq!(rsys.reqs_by(0)[r].write.num, 1);
    assert_eq!(rsys.reqs_by(0)[r].write.length, 3);
    assert_eq!(rsys.reqs_by(0)[r].read.num, 2);
    assert_eq!(rsys.reqs_by(0)[r].read.length, 5);
}

#[test]
fn bound_max_compares_length_first() {
    let a = Bound { count: 1, length: 10 };
    let b = Bound { count: 5, length: 3 };
    assert_eq!(a.max_of(b), a);
    assert_eq!(b.max_of(a), a);
    let c = Bound { count: 2, length: 10 };
    assert_eq!(a.max_of(c), c);
}

#[test]
fn by_rsrc_groups_by_resource() {
    let tasks = vec![Task::new(1, 10), Task::new(1, 10)];
    let mut sys: System<Mutex> = System::new(tasks);
    let r0 = sys.add_rsrc();
    let r1 = sys.add_rsrc();
    sys.add_req(0, r0, Request { num: 1, length: 4 });
    sys.add_req(1, r1, Request { num: 2, length: 9 });

    let by_rsrc = sys.by_rsrc();
    assert_eq!(by_rsrc.len(), 2);
    for (r, usage) in by_rsrc.iter().enumerate() {
        assert_eq!(usage.len(), 2);
        for entry in usage {
            assert_eq!(entry.req, sys.reqs_by(entry.task)[r]);
        }
    }
}

#[test]
fn empty_system_has_zero_bounds() {
    let sys: System<Mutex> = System::new(vec![Task::new(1, 10), Task::new(1, 10)]);
    let data = sys.run(&rtsched::proto::FlexibleMulti);
    assert_eq!(data.len(), 2);
    for d in &data {
        assert_eq!(d.total, Bound { count: 0, length: 0 });
        assert_eq!(d.arrival, Bound { count: 0, length: 0 });
    }
}

#[test]
fn task_constructors() {
    let t = Task::new(3, 10);
    assert_eq!(t.cost, 3);
    assert_eq!(t.period, 10);
    assert_eq!(t.deadline, 10);
    assert_eq!(t.priority, 0);
    let t = t.with_deadline(8);
    assert_eq!(t.deadline, 8);
    let t = t.edf();
    assert_eq!(t.priority, 8);
    assert!(t.feasible());
    assert!(!t.implicit());
}
