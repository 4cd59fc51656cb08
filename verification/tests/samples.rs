use monadicast::samples::bfs::bfs;
use monadicast::samples::insertion_sort::insertion_sort;
use monadicast::samples::mlfq::{
    dequeue, enqueue, initializeQueue, initializeScheduler, isEmpty, runMLFQScheduler, Process,
    Queue, QueueFull, RunError, SchedEvent, Scheduler,
};
use monadicast::samples::perms::{
    accepts_permissions, checkPermissions, is_valid_user_id, modifyPermissions, numbered_users,
    PermissionReport, User,
};

#[test]
fn sorts_the_prefix_and_leaves_the_rest() {
    let mut p = vec![5, -2, 9, 0, 5, 7, -1];
    insertion_sort(5, &mut p);
    assert_eq!(p, vec![-2, 0, 5, 5, 9, 7, -1]);
}

#[test]
fn sorting_a_sorted_prefix_changes_nothing() {
    let mut p = vec![1, 2, 3, 0];
    insertion_sort(3, &mut p);
    assert_eq!(p, vec![1, 2, 3, 0]);
    let mut q = vec![3, 2, 1];
    insertion_sort(3, &mut q);
    let once = q.clone();
    insertion_sort(3, &mut q);
    assert_eq!(q, once);
}

#[test]
fn short_or_negative_lengths_sort_nothing() {
    let mut p = vec![3, 2, 1];
    insertion_sort(1, &mut p);
    insertion_sort(0, &mut p);
    insertion_sort(-4, &mut p);
    assert_eq!(p, vec![3, 2, 1]);
    let mut empty: Vec<i32> = Vec::new();
    insertion_sort(0, &mut empty);
    assert!(empty.is_empty());
}

#[test]
fn reverse_order_and_extremes() {
    let mut p = vec![i32::MAX, 4, 3, i32::MIN, 1];
    insertion_sort(5, &mut p);
    assert_eq!(p, vec![i32::MIN, 1, 3, 4, i32::MAX]);
}

#[test]
fn bfs_reports_no_node() {
    let mut graph = vec![[0i32; 100]; 100];
    graph[0][1] = 1;
    graph[1][0] = 1;
    assert!(bfs(&graph, 2, 0).is_empty());
    assert!(bfs(&graph, 2, 99).is_empty());
}

#[test]
fn permissions_report_bits() {
    let users = vec![
        User { id: 1, permissions: 7 },
        User { id: 2, permissions: 4 },
        User { id: 3, permissions: 3 },
        User { id: 4, permissions: 0 },
    ];
    let report = checkPermissions(&users, 3);
    assert_eq!(
        report,
        vec![
            PermissionReport { id: 1, read: true, write: true, execute: true },
            PermissionReport { id: 2, read: true, write: false, execute: false },
            PermissionReport { id: 3, read: false, write: true, execute: true },
        ]
    );
    assert!(checkPermissions(&users, 0).is_empty());
    assert!(checkPermissions(&users, -2).is_empty());
}

#[test]
fn permission_numbers_up_to_seven_are_accepted() {
    assert!(accepts_permissions(0));
    assert!(accepts_permissions(7));
    assert!(!accepts_permissions(8));
    assert!(!accepts_permissions(111));
}

#[test]
fn changed_permissions_show_in_the_report() {
    let mut users = numbered_users(2);
    assert_eq!(users[1].id, 2);
    assert_eq!(users[1].permissions, 0);
    modifyPermissions(&mut users[1], 5);
    assert_eq!(users[1].id, 2);
    let report = checkPermissions(&users, 2);
    assert_eq!(report[1], PermissionReport { id: 2, read: true, write: false, execute: true });
    assert_eq!(report[0], PermissionReport { id: 1, read: false, write: false, execute: false });
}

#[test]
fn user_ids_run_from_one() {
    assert!(is_valid_user_id(1, 3));
    assert!(is_valid_user_id(3, 3));
    assert!(!is_valid_user_id(0, 3));
    assert!(!is_valid_user_id(4, 3));
    assert!(!is_valid_user_id(1, 0));
}

fn empty_queue() -> Queue {
    let mut q = Queue { processes: vec![0; 10], front: 0, rear: 0 };
    initializeQueue(&mut q);
    q
}

#[test]
fn queue_is_first_in_first_out() {
    let mut q = empty_queue();
    assert_eq!(isEmpty(&q), 1);
    assert_eq!(dequeue(&mut q), None);
    assert_eq!(enqueue(&mut q, 4), Ok(()));
    assert_eq!(enqueue(&mut q, 7), Ok(()));
    assert_eq!(isEmpty(&q), 0);
    assert_eq!(dequeue(&mut q), Some(4));
    assert_eq!(dequeue(&mut q), Some(7));
    assert_eq!(isEmpty(&q), 1);
    assert_eq!((q.front, q.rear), (-1, -1));
}

#[test]
fn queue_is_full_when_its_last_slot_is_taken() {
    let mut q = empty_queue();
    for p in 0..10 {
        assert_eq!(enqueue(&mut q, p), Ok(()));
    }
    assert_eq!(enqueue(&mut q, 10), Err(QueueFull));
    assert_eq!(dequeue(&mut q), Some(0));
    assert_eq!(enqueue(&mut q, 10), Err(QueueFull));
}

fn process(id: i32, burst: i32) -> Process {
    Process { id, burstTime: burst, priority: 3, arrivalTime: 0, isCompleted: 1 }
}

#[test]
fn scheduler_setup_queues_ready_processes() {
    let mut queues = Scheduler::new();
    let mut processes = vec![process(0, 5), process(1, 3), process(2, 8)];
    assert_eq!(initializeScheduler(&mut queues, &mut processes, 2), Ok(()));
    assert_eq!((processes[0].priority, processes[0].isCompleted), (0, 0));
    assert_eq!((processes[1].priority, processes[1].isCompleted), (0, 0));
    assert_eq!((processes[2].priority, processes[2].isCompleted), (3, 1));
    assert_eq!(dequeue(&mut queues.queue0), Some(0));
    assert_eq!(dequeue(&mut queues.queue0), Some(1));
    assert_eq!(isEmpty(&queues.queue0), 1);
    assert_eq!(isEmpty(&queues.queue1), 1);
}

#[test]
fn scheduler_setup_fails_past_ten_processes() {
    let mut queues = Scheduler::new();
    let mut processes: Vec<Process> = (0..12).map(|i| process(i, 1)).collect();
    assert_eq!(initializeScheduler(&mut queues, &mut processes, 12), Err(QueueFull));
    assert_eq!(processes[10].isCompleted, 0);
    assert_eq!(processes[11].isCompleted, 1);
}

#[test]
fn scheduler_runs_processes_to_completion() {
    let mut queues = Scheduler::new();
    let mut processes = vec![process(0, 5), process(1, 3)];
    initializeScheduler(&mut queues, &mut processes, 2).unwrap();
    let (events, outcome) = runMLFQScheduler(&mut queues, &mut processes, 2);
    assert_eq!(outcome, Ok(()));
    assert_eq!(
        events,
        vec![
            SchedEvent::Running { time: 0, id: 0, queue: 0, slice: 4 },
            SchedEvent::Moved { time: 4, id: 0, queue: 1 },
            SchedEvent::Running { time: 4, id: 1, queue: 0, slice: 3 },
            SchedEvent::Completed { time: 7, id: 1 },
            SchedEvent::Running { time: 7, id: 0, queue: 1, slice: 1 },
            SchedEvent::Completed { time: 8, id: 0 },
        ]
    );
    assert_eq!((processes[0].burstTime, processes[0].priority, processes[0].isCompleted), (0, 1, 1));
    assert_eq!((processes[1].burstTime, processes[1].priority, processes[1].isCompleted), (0, 0, 1));
    assert_eq!(isEmpty(&queues.queue0) + isEmpty(&queues.queue1) + isEmpty(&queues.queue2), 3);
}

#[test]
fn scheduler_with_nothing_queued_reports_nothing() {
    let mut queues = Scheduler::new();
    let mut processes = vec![process(0, 5)];
    let (events, outcome) = runMLFQScheduler(&mut queues, &mut processes, 1);
    assert_eq!(outcome, Ok(()));
    assert!(events.is_empty());
}

#[test]
fn long_processes_fill_the_last_queue() {
    let mut queues = Scheduler::new();
    let mut processes = vec![process(0, 100), process(1, 100)];
    initializeScheduler(&mut queues, &mut processes, 2).unwrap();
    let (events, outcome) = runMLFQScheduler(&mut queues, &mut processes, 2);
    assert_eq!(outcome, Err(RunError::QueueFull));
    assert_eq!(events.len(), 17);
    let runs = events.iter().filter(|e| matches!(e, SchedEvent::Running { .. })).count();
    assert_eq!(runs, 13);
    assert!(matches!(events.last(), Some(SchedEvent::Running { queue: 2, .. })));
}

#[test]
fn time_leaving_i32_stops_the_run() {
    let mut queues = Scheduler::new();
    let mut processes = vec![process(0, i32::MIN), process(1, -1)];
    initializeScheduler(&mut queues, &mut processes, 2).unwrap();
    let (events, outcome) = runMLFQScheduler(&mut queues, &mut processes, 2);
    assert_eq!(outcome, Err(RunError::Overflow));
    assert_eq!(
        events,
        vec![
            SchedEvent::Running { time: 0, id: 0, queue: 0, slice: i32::MIN },
            SchedEvent::Completed { time: i32::MIN, id: 0 },
            SchedEvent::Running { time: i32::MIN, id: 1, queue: 0, slice: -1 },
        ]
    );
}

#[test]
fn priority_leaving_i32_stops_the_run() {
    let mut queues = Scheduler::new();
    let mut processes = vec![process(0, 10)];
    initializeScheduler(&mut queues, &mut processes, 1).unwrap();
    processes[0].priority = i32::MAX;
    let (events, outcome) = runMLFQScheduler(&mut queues, &mut processes, 1);
    assert_eq!(outcome, Err(RunError::Overflow));
    assert_eq!(events, vec![SchedEvent::Running { time: 0, id: 0, queue: 0, slice: 4 }]);
}

#[test]
fn ten_short_processes_end_at_the_sum_of_their_bursts() {
    let bursts = [3, 7, 5, 8, 1, 4, 6, 2, 8, 5];
    let mut queues = Scheduler::new();
    let mut processes: Vec<Process> = bursts.iter().enumerate().map(|(i, b)| process(i as i32, *b)).collect();
    initializeScheduler(&mut queues, &mut processes, 10).unwrap();
    assert_eq!((queues.queue0.front, queues.queue0.rear), (0, 9));
    assert_eq!((queues.queue1.front, queues.queue1.rear), (-1, -1));
    assert_eq!((queues.queue2.front, queues.queue2.rear), (-1, -1));
    let (events, outcome) = runMLFQScheduler(&mut queues, &mut processes, 10);
    assert_eq!(outcome, Ok(()));
    let total: i32 = bursts.iter().sum();
    match events.last() {
        Some(SchedEvent::Completed { time, .. }) => assert_eq!(*time, total),
        other => panic!("unexpected last event {:?}", other),
    }
    for (k, b) in bursts.iter().enumerate() {
        let pr = processes[k];
        assert_eq!((pr.isCompleted, pr.burstTime), (1, 0));
        assert_eq!(pr.priority, if *b > 4 { 1 } else { 0 });
        assert_eq!(pr.id, k as i32);
    }
    assert_eq!(isEmpty(&queues.queue0) + isEmpty(&queues.queue1) + isEmpty(&queues.queue2), 3);
}

#[test]
fn scheduler_setup_with_no_processes_leaves_queues_empty() {
    let mut queues = Scheduler::new();
    let mut processes = vec![process(0, 5)];
    assert_eq!(initializeScheduler(&mut queues, &mut processes, 0), Ok(()));
    assert_eq!((queues.queue0.front, queues.queue0.rear), (-1, -1));
    assert_eq!(processes[0].isCompleted, 1);
}

#[test]
fn queue_is_empty_after_as_many_removals_as_additions() {
    let mut q = empty_queue();
    enqueue(&mut q, 4).unwrap();
    enqueue(&mut q, 7).unwrap();
    assert_eq!(dequeue(&mut q), Some(4));
    assert_eq!(isEmpty(&q), 0);
    enqueue(&mut q, 9).unwrap();
    assert_eq!(dequeue(&mut q), Some(7));
    assert_eq!(dequeue(&mut q), Some(9));
    assert_eq!(isEmpty(&q), 1);
}
