use rtsched::task::Task;
use rtsched::rsrc::{System, Mutex, Rw, Request};
use rtsched::sharing::Bound;
use rtsched::proto::{FlexibleMulti, OptimalFIFO, GlobalOm, SingleClusterOm};

fn three_tasks() -> Vec<Task> {
    vec![Task::new(3, 10), Task::new(3, 10), Task::new(3, 10)]
}

fn one_resource_three_tasks() -> System<Mutex> {
    let mut sys: System<Mutex> = System::new(three_tasks());
    let r = sys.add_rsrc();
    assert_eq!(r, 0);
    for t in 0..3 {
        sys.add_req(t, r, Request { num: 1, length: 10 });
    }
    sys
}

#[test]
fn fmlp_three_tasks_one_resource() {
    let sys = one_resource_three_tasks();
    let data = sys.run(&FlexibleMulti);
    assert_eq!(data.len(), 3);
    for d in &data {
        assert_eq!(d.total, Bound { count: 2, length: 20 });
        assert_eq!(d.arrival, Bound { count: 0, length: 0 });
    }
}

#[test]
fn olpf_three_tasks_two_cpus() {
    let sys = one_resource_three_tasks();
    let data = sys.run(&OptimalFIFO::new(2));
    for d in &data {
        assert_eq!(d.total, Bound { count: 1, length: 10 });
    }
}

#[test]
fn omlp_three_tasks_two_cpus_fifo_regime() {
    // three requesting tasks, at most m + 1 = 3: the FIFO-only regime
    // applies and the bound equals FMLP's
    let sys = one_resource_three_tasks();
    let data = sys.run(&GlobalOm::new(2));
    for d in &data {
        assert_eq!(d.total, Bound { count: 2, length: 20 });
    }
}

#[test]
fn omlp_doubled_regime() {
    // four requesting tasks exceed m + 1 = 3: at most 2m - 1 = 3 requests,
    // at most two per competitor
    let tasks = vec![
        Task::new(1, 10),
        Task::new(1, 10),
        Task::new(1, 10),
        Task::new(1, 10),
    ];
    let mut sys: System<Mutex> = System::new(tasks);
    let r = sys.add_rsrc();
    for t in 0..4 {
        sys.add_req(t, r, Request { num: 1, length: 10 });
    }
    let data = sys.run(&GlobalOm::new(2));
    for d in &data {
        assert_eq!(d.total, Bound { count: 3, length: 30 });
    }
}

#[test]
fn single_cluster_priority_donation() {
    // two tasks of equal priority, each requesting length 5 from its own
    // resource: each total gains the other's arrival bound, not its own
    let tasks = vec![Task::new(1, 10), Task::new(1, 10)];
    let mut sys: System<Mutex> = System::new(tasks);
    let r0 = sys.add_rsrc();
    let r1 = sys.add_rsrc();
    sys.add_req(0, r0, Request { num: 1, length: 5 });
    sys.add_req(1, r1, Request { num: 1, length: 5 });

    let data = sys.run(&SingleClusterOm::new(2));
    for d in &data {
        // the arrival bound holds the task's own request of length 5 plus
        // the other task's empty entry on the shared usage view
        assert_eq!(d.arrival, Bound { count: 2, length: 5 });
        // the total gains the other task's arrival length of 5 after the
        // aggregation pass, not its own
        assert_eq!(d.total, Bound { count: 3, length: 5 });
        assert_eq!(d.total.length, d.arrival.length);
    }
}

#[test]
fn single_cluster_donation_skips_higher_priority_values() {
    // a task of larger priority value (lower priority) donates nothing to
    // its peers, but receives from them
    let tasks = vec![Task::new(1, 10).edf(), Task::new(1, 20).edf()];
    let mut sys: System<Mutex> = System::new(tasks);
    let r0 = sys.add_rsrc();
    let r1 = sys.add_rsrc();
    sys.add_req(0, r0, Request { num: 1, length: 5 });
    sys.add_req(1, r1, Request { num: 1, length: 7 });

    let data = sys.run(&SingleClusterOm::new(2));
    // task 0 (priority 10) only counts donors with priority <= 10: itself
    // is excluded and task 1 has priority 20, so nothing is donated
    assert_eq!(data[0].total, Bound { count: 1, length: 0 });
    // task 1 (priority 20) gains task 0's arrival bound of length 5
    assert_eq!(data[1].total, Bound { count: 3, length: 5 });
    assert_eq!(data[0].arrival, Bound { count: 2, length: 5 });
}

#[test]
fn rw_olpf_writer_case() {
    let tasks = vec![Task::new(1, 10), Task::new(1, 10)];
    let mut sys: System<Rw> = System::new(tasks);
    let r = sys.add_rsrc();
    sys.add_write(0, r, Request { num: 1, length: 10 });
    sys.add_write(1, r, Request { num: 1, length: 4 });

    let data = sys.run(&OptimalFIFO::new(2));
    // for task 0: one competing write of length 4, and the single-read
    // bound counts the (empty) read entry of the other task
    assert_eq!(data[0].total, Bound { count: 3, length: 4 });
}

#[test]
fn rw_olpf_single_cpu_is_zero() {
    let tasks = vec![Task::new(1, 10), Task::new(1, 10)];
    let mut sys: System<Rw> = System::new(tasks);
    let r = sys.add_rsrc();
    sys.add_write(0, r, Request { num: 1, length: 10 });
    sys.add_read(1, r, Request { num: 1, length: 6 });

    let data = sys.run(&OptimalFIFO::new(1));
    for d in &data {
        assert_eq!(d.total, Bound { count: 0, length: 0 });
    }
}

#[test]
fn crw_omlp_reader_and_writer() {
    let tasks = vec![Task::new(1, 10), Task::new(1, 10)];
    let mut sys: System<Rw> = System::new(tasks);
    let r = sys.add_rsrc();
    sys.add_write(0, r, Request { num: 1, length: 10 });
    sys.add_read(1, r, Request { num: 1, length: 6 });

    let data = sys.run(&SingleClusterOm::new(2));
    assert_eq!(data[0].total, Bound { count: 5, length: 22 });
    assert_eq!(data[0].arrival, Bound { count: 3, length: 16 });
    assert_eq!(data[1].total, Bound { count: 5, length: 26 });
    assert_eq!(data[1].arrival, Bound { count: 3, length: 16 });
}

#[test]
fn crw_omlp_single_cpu_is_zero() {
    let tasks = vec![Task::new(1, 10), Task::new(1, 10)];
    let mut sys: System<Rw> = System::new(tasks);
    let r = sys.add_rsrc();
    sys.add_write(0, r, Request { num: 1, length: 10 });
    sys.add_read(1, r, Request { num: 1, length: 6 });

    let data = sys.run(&SingleClusterOm::new(1));
    for d in &data {
        assert_eq!(d.total, Bound { count: 0, length: 0 });
        assert_eq!(d.arrival, Bound { count: 0, length: 0 });
    }
}
