use rtsched::task::Task;
use rtsched::sharing::{Bound, ObliviousData, ObliviousTask};
use rtsched::bound::{soft, soft_with};

fn data_with_blocking(length: u64) -> ObliviousData {
    let mut d = ObliviousData::zero();
    d.total = Bound { count: 1, length };
    d
}

#[test]
fn soft_passes_feasible_implicit_task() {
    // cost 3, period 10, implicit deadline, blocking 2: 3 + 2 = 5 <= 10
    let tasks = vec![Task::new(3, 10)];
    let data = vec![data_with_blocking(2)];
    assert_eq!(soft(&tasks, &data, 1), Some(true));
}

#[test]
fn soft_has_no_opinion_on_constrained_deadlines() {
    // deadline 8 != period 10: no opinion, whatever the blocking
    let tasks = vec![Task::new(3, 10).with_deadline(8)];
    assert_eq!(soft(&tasks, &vec![data_with_blocking(2)], 1), None);
    assert_eq!(soft(&tasks, &vec![data_with_blocking(0)], 4), None);
}

#[test]
fn soft_fails_infeasible_task() {
    // 3 + 9 = 12 > 10: infeasible regardless of CPU count
    let tasks = vec![Task::new(3, 10)];
    let data = vec![data_with_blocking(9)];
    assert_eq!(soft(&tasks, &data, 8), Some(false));
}

#[test]
fn soft_compares_utilization_exactly() {
    // three tasks of utilization 9/10 each: 2.7 fits three CPUs, not two
    let tasks = vec![Task::new(9, 10), Task::new(9, 10), Task::new(9, 10)];
    let data = vec![ObliviousData::zero(); 3];
    assert_eq!(soft(&tasks, &data, 3), Some(true));
    assert_eq!(soft(&tasks, &data, 2), Some(false));
    // blocking pushes each task to 10/10: exactly 3 still fits 3 CPUs
    let data = vec![data_with_blocking(1); 3];
    assert_eq!(soft(&tasks, &data, 3), Some(true));
    // one more unit of blocking makes a task infeasible
    let data = vec![data_with_blocking(2); 3];
    assert_eq!(soft(&tasks, &data, 3), Some(false));
}

#[test]
fn soft_with_takes_the_comparison_outcome() {
    let tasks = vec![Task::new(3, 10)];
    let data = vec![data_with_blocking(2)];
    assert_eq!(soft_with(&tasks, &data, true), Some(true));
    assert_eq!(soft_with(&tasks, &data, false), Some(false));
    let tasks = vec![Task::new(3, 10).with_deadline(8)];
    assert_eq!(soft_with(&tasks, &data, true), None);
}

#[test]
fn oblivious_task_accounts_for_blocking() {
    let t = ObliviousTask::new(Task::new(3, 10), data_with_blocking(2));
    assert!(t.implicit());
    assert!(t.feasible());
    assert_eq!(t.utilization_parts(), (5, 10));
    let t = ObliviousTask::new(Task::new(3, 10), data_with_blocking(8));
    assert!(!t.feasible());
}
