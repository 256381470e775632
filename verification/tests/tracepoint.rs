use appopt::tracepoint::{
    fork_parse, offsets_load, sched_process_exec, sched_process_exit, sched_process_fork,
    task_rename, whitelist_matched, ProcEvent, TracepointOffsets, Verdict, EVENT_EXEC, EVENT_EXIT,
    EVENT_FORK, EVENT_RENAME,
};

const OFFSETS: TracepointOffsets =
    TracepointOffsets { fork_child_pid: 44, fork_child_comm: 28, rename_newcomm: 28 };

const BOTH: u64 = (1000u64 << 32) | 1007;

fn all(_key: [u8; 8]) -> bool {
    true
}

fn none(_key: [u8; 8]) -> bool {
    false
}

fn same(e: &ProcEvent, pid: i32, tid: i32, comm: [u8; 16], kind: u32) -> bool {
    e.pid == pid && e.tid == tid && e.comm == comm && e.event_type == kind
}

#[test]
fn offsets_at_zero_are_not_there() {
    assert_eq!(offsets_load(Some(OFFSETS)), Some(OFFSETS));
    assert_eq!(offsets_load(Some(TracepointOffsets { fork_child_pid: 0, ..OFFSETS })), None);
    assert_eq!(offsets_load(None), None);
}

#[test]
fn windows_of_names_are_looked_up() {
    let comm = *b"com.tencent.mm:x";
    assert!(whitelist_matched(&comm, |k: [u8; 8]| &k == b"com.tenc"));
    assert!(whitelist_matched(&comm, |k: [u8; 8]| &k == b"ent.mm:x" || &k == b"nt.mm:xx"));
    assert!(whitelist_matched(&comm, |k: [u8; 8]| &k == b"tencent."));
    assert!(!whitelist_matched(&comm, |k: [u8; 8]| &k == b"tencentx"));
    assert!(!whitelist_matched(&comm, |_k: [u8; 8]| false));
}

#[test]
fn forks_are_read() {
    assert_eq!(fork_parse(BOTH, Some(1008), Some([1; 16])), (1000, 1008, [1; 16]));
    assert_eq!(fork_parse(BOTH, None, None), (1000, 0, [0; 16]));
    assert_eq!(fork_parse(u64::MAX, Some(-1), None), (-1, -1, [0; 16]));
}

#[test]
fn forks_of_managed_threads_are_managed() {
    match sched_process_fork(Some(OFFSETS), BOTH, Some(1008), Some([1; 16]), true, none) {
        Verdict::Track(tid, e) => {
            assert_eq!(tid, 1008);
            assert!(same(&e, 1000, 1008, [1; 16], EVENT_FORK));
        }
        _ => panic!("not managed"),
    }
    match sched_process_fork(Some(OFFSETS), BOTH, Some(-1), None, true, all) {
        Verdict::Track(tid, e) => {
            assert_eq!(tid, u32::MAX);
            assert!(same(&e, 1000, -1, [0; 16], EVENT_FORK));
        }
        _ => panic!("not managed"),
    }
}

#[test]
fn forks_on_the_whitelist_are_reported() {
    match sched_process_fork(Some(OFFSETS), BOTH, Some(1008), Some([2; 16]), false, |k: [u8; 8]| k == [2; 8]) {
        Verdict::Report(e) => assert!(same(&e, 1000, 1008, [2; 16], EVENT_FORK)),
        _ => panic!("not reported"),
    }
    assert!(matches!(
        sched_process_fork(Some(OFFSETS), BOTH, Some(1008), None, false, |k: [u8; 8]| k != [0; 8]),
        Verdict::Ignore
    ));
    assert!(matches!(
        sched_process_fork(None, BOTH, Some(1008), None, true, all),
        Verdict::Ignore
    ));
}

#[test]
fn unreadable_names_are_looked_up_as_zeros() {
    let zeros = |k: [u8; 8]| k == [0; 8];
    match sched_process_exec(BOTH, None, zeros) {
        Verdict::Report(e) => assert!(same(&e, 1000, 1007, [0; 16], EVENT_EXEC)),
        _ => panic!("not reported"),
    }
    assert!(matches!(
        sched_process_fork(Some(OFFSETS), BOTH, None, None, false, zeros),
        Verdict::Report(_)
    ));
    assert!(matches!(task_rename(Some(OFFSETS), BOTH, None, false, zeros), Verdict::Report(_)));
}

#[test]
fn programs_on_the_whitelist_are_reported() {
    match sched_process_exec(BOTH, Some([3; 16]), |k: [u8; 8]| k == [3; 8]) {
        Verdict::Report(e) => assert!(same(&e, 1000, 1007, [3; 16], EVENT_EXEC)),
        _ => panic!("not reported"),
    }
    assert!(matches!(sched_process_exec(BOTH, Some([3; 16]), |k: [u8; 8]| k == [4; 8]), Verdict::Ignore));
}

#[test]
fn new_names_are_reported() {
    for (managed, key) in [(true, [9; 8]), (false, [4; 8])] {
        match task_rename(Some(OFFSETS), BOTH, Some([4; 16]), managed, |k: [u8; 8]| k == key) {
            Verdict::Report(e) => assert!(same(&e, 1000, 1007, [4; 16], EVENT_RENAME)),
            _ => panic!("not reported"),
        }
    }
    assert!(matches!(
        task_rename(Some(OFFSETS), BOTH, None, false, |k: [u8; 8]| k != [0; 8]),
        Verdict::Ignore
    ));
    assert!(matches!(task_rename(None, BOTH, None, true, all), Verdict::Ignore));
    assert!(matches!(
        task_rename(Some(OFFSETS), 1000u64 << 32, None, true, all),
        Verdict::Ignore
    ));
}

#[test]
fn ends_of_managed_threads_are_reported() {
    match sched_process_exit(BOTH, true) {
        Verdict::Untrack(tid, e) => {
            assert_eq!(tid, 1007);
            assert!(same(&e, 1000, 1007, [0; 16], EVENT_EXIT));
        }
        _ => panic!("still managed"),
    }
    assert!(matches!(sched_process_exit(BOTH, false), Verdict::Ignore));
}
