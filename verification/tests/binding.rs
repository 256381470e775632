use appopt::binding::{
    add_failure_told, affinity_set, apply, bind_outcome, cpuset_add, ensure_cpuset, init_cpuset,
    thread_gone, BindOutcome, BindPass, BindStep, BoundSet, FsAction,
};
use appopt::cpuset::{CpuSet, CpuTopology};

fn set(list: &str) -> CpuSet {
    CpuSet::from_range(list)
}

fn thread(tid: i32, list: &str) -> (i32, String, CpuSet) {
    (tid, String::from("t"), set(list))
}

fn shown(a: &FsAction) -> String {
    match a {
        FsAction::MakeDir(p) => format!("mkdir {}", p),
        FsAction::Write(p, t) => format!("write {} {:?}", p, t),
        FsAction::Append(p, t) => format!("append {} {:?}", p, t),
    }
}

fn shown_all(v: &[FsAction]) -> Vec<String> {
    v.iter().map(shown).collect()
}

fn shown_steps(v: &[BindStep]) -> Vec<String> {
    v.iter()
        .map(|s| match s {
            BindStep::SetAffinity(tid, cpus) => format!("set {} {}", tid, cpus.to_range_string()),
            BindStep::Prepare(a) => shown(a),
            BindStep::Enter(a) => format!("enter: {}", shown(a)),
        })
        .collect()
}

#[test]
fn bound_sets_hold_keys_once() {
    let mut b = BoundSet::new();
    assert!(!b.contains(1, "0-3"));
    assert!(b.insert(1, String::from("0-3")));
    assert!(!b.insert(1, String::from("0-3")));
    assert!(b.contains(1, "0-3"));
    assert!(!b.contains(1, "0"));
    assert!(!b.contains(2, "0-3"));
    let mut other = BoundSet::new();
    other.insert(1, String::from("0-3"));
    other.insert(2, String::from("7"));
    b.extend(other);
    assert!(b.contains(2, "7"));
    b.clear();
    assert!(!b.contains(1, "0-3"));
}

#[test]
fn threads_are_put_on_their_cpus() {
    let procs = [
        (1000, String::from("a"), vec![thread(1, "0-3"), thread(2, ""), thread(3, "7")]),
        (1001, String::from("b"), vec![thread(4, "0-3"), thread(5, "4,6")]),
    ];
    let seen = [None, None, Some(set("7")), Some(set("0-7")), None];
    let mut bound = BoundSet::new();
    let mut failed = BoundSet::new();
    let answers = [None, None, None, Some(Some(22)), Some(Some(3))];
    let (counts, steps, told) =
        apply(&procs, &seen, &answers, true, Some("0\n"), &mut bound, &mut failed);
    assert_eq!(counts, (2, 5, 3));
    // Each thread is put on its CPUs first, and then into its cpuset.
    assert_eq!(
        shown_steps(&steps),
        vec![
            "set 1 0-3",
            "mkdir /dev/cpuset/AppOpt/0-3",
            "write /dev/cpuset/AppOpt/0-3/cpus \"0-3\"",
            "write /dev/cpuset/AppOpt/0-3/mems \"0\"",
            "enter: write /dev/cpuset/AppOpt/0-3/tasks \"1\\n\"",
            "set 4 0-3",
            "enter: write /dev/cpuset/AppOpt/0-3/tasks \"4\\n\"",
            "set 5 4,6",
            "mkdir /dev/cpuset/AppOpt/4.6",
            "write /dev/cpuset/AppOpt/4.6/cpus \"4,6\"",
            "write /dev/cpuset/AppOpt/4.6/mems \"0\"",
            "enter: write /dev/cpuset/AppOpt/4.6/tasks \"5\\n\"",
        ]
    );
    assert_eq!(told, vec![(4, String::from("0-3"))]);
    assert!(failed.contains(4, "0-3"));
    assert!(!failed.contains(5, "4,6"));
    for (tid, list) in [(1, "0-3"), (3, "7"), (4, "0-3"), (5, "4,6")] {
        assert!(bound.contains(tid, list));
    }
    assert!(!bound.contains(2, ""));
}

#[test]
fn second_pass_has_nothing_to_do() {
    let procs = [(1000, String::from("a"), vec![thread(1, "0-3"), thread(2, "7")])];
    let mut bound = BoundSet::new();
    let mut failed = BoundSet::new();
    let none = [None, None];
    let mut pass = |seen: [Option<CpuSet>; 2], bound: &mut BoundSet| {
        let (counts, steps, told) =
            apply(&procs, &seen, &none, false, None, bound, &mut failed);
        assert!(told.is_empty());
        (counts, shown_steps(&steps))
    };
    let (first, _) = pass([None, Some(set("7"))], &mut bound);
    assert_eq!(first, (1, 2, 1));
    let (second, steps) = pass([Some(set("5")), None], &mut bound);
    assert_eq!(second, (1, 2, 0));
    assert!(steps.is_empty());
    // After the set was emptied every thread that is elsewhere is put on its CPUs again.
    bound.clear();
    let (third, steps) = pass([Some(set("5")), None], &mut bound);
    assert_eq!(third, (1, 2, 2));
    assert_eq!(steps, vec!["set 1 0-3", "set 2 7"]);
}

#[test]
fn failures_are_told_once_over_passes() {
    let procs = [(1000, String::from("a"), vec![thread(1, "7"), thread(2, "7")])];
    let mut bound = BoundSet::new();
    let mut failed = BoundSet::new();
    let answers = [Some(Some(1)), Some(Some(3))];
    let mut all = Vec::new();
    for _ in 0..4 {
        let (counts, _, told) =
            apply(&procs, &[None, None], &answers, false, None, &mut bound, &mut failed);
        assert_eq!(counts.2, 2);
        all.extend(told);
        bound.clear();
    }
    assert_eq!(all, vec![(1, String::from("7"))]);
}

#[test]
fn nothing_is_done_for_no_processes() {
    let mut bound = BoundSet::new();
    let mut failed = BoundSet::new();
    let (counts, steps, told) = apply(&[], &[], &[], true, None, &mut bound, &mut failed);
    assert_eq!(counts, (0, 0, 0));
    assert!(steps.is_empty());
    assert!(told.is_empty());
}

#[test]
fn passes_go_thread_by_thread() {
    let mut bound = BoundSet::new();
    bound.insert(9, String::from("7"));
    let mut pass = BindPass::new();
    assert!(pass.step(&bound, 9, set("7"), None).is_none());
    assert!(pass.step(&bound, 8, set(""), None).is_none());
    assert!(pass.step(&bound, 8, set("6"), Some(set("6"))).is_none());
    let a = pass.step(&bound, 8, set("5"), Some(set("6"))).unwrap();
    assert_eq!((a.tid, a.list.as_str(), a.make_dir), (8, "5", true));
    let b = pass.step(&bound, 7, set("5"), None).unwrap();
    assert!(!b.make_dir);
    assert_eq!(pass.new_count(), 2);
    pass.finish(&mut bound);
    assert!(bound.contains(8, "6"));
    assert!(bound.contains(8, "5"));
    assert!(bound.contains(7, "5"));
    assert!(bound.contains(9, "7"));
}

#[test]
fn failures_are_told_once() {
    let mut failed = BoundSet::new();
    let c = set("7");
    assert_eq!(bind_outcome(&mut failed, 1, &c, None), BindOutcome::Bound);
    assert_eq!(bind_outcome(&mut failed, 1, &c, Some(Some(3))), BindOutcome::Gone);
    assert_eq!(bind_outcome(&mut failed, 1, &c, Some(Some(22))), BindOutcome::Failed);
    assert_eq!(bind_outcome(&mut failed, 1, &c, Some(Some(22))), BindOutcome::FailedAgain);
    assert_eq!(bind_outcome(&mut failed, 1, &c, Some(None)), BindOutcome::FailedAgain);
    assert_eq!(bind_outcome(&mut failed, 1, &set("6"), Some(None)), BindOutcome::Failed);
    assert_eq!(bind_outcome(&mut failed, 2, &c, Some(Some(1))), BindOutcome::Failed);
    assert!(thread_gone(BindOutcome::Gone));
    assert!(!thread_gone(BindOutcome::Failed));
    assert!(!thread_gone(BindOutcome::Bound));
    assert!(add_failure_told(None));
    assert!(add_failure_told(Some(13)));
    assert!(!add_failure_told(Some(3)));
}

#[test]
fn base_cpuset_is_made() {
    assert!(init_cpuset(false, Some("0-7"), None).is_none());
    assert_eq!(
        shown_all(&init_cpuset(true, Some("0-7\n"), Some("0\n")).unwrap()),
        vec![
            "mkdir /dev/cpuset/AppOpt",
            "write /dev/cpuset/AppOpt/cpus \"0-7\"",
            "write /dev/cpuset/AppOpt/mems \"0\"",
        ]
    );
    assert_eq!(
        shown_all(&init_cpuset(true, None, None).unwrap()),
        vec!["mkdir /dev/cpuset/AppOpt", "write /dev/cpuset/AppOpt/cpus \"\""]
    );
}

#[test]
fn cpusets_are_made_for_lists() {
    assert_eq!(
        shown_all(&ensure_cpuset(true, "0-1,4", Some(" 0 "))),
        vec![
            "mkdir /dev/cpuset/AppOpt/0-1.4",
            "write /dev/cpuset/AppOpt/0-1.4/cpus \"0-1,4\"",
            "write /dev/cpuset/AppOpt/0-1.4/mems \"0\"",
        ]
    );
    assert_eq!(ensure_cpuset(true, "7", None).len(), 2);
    assert!(ensure_cpuset(false, "7", None).is_empty());
    assert_eq!(
        shown(&cpuset_add(true, 42, "0,7").unwrap()),
        "write /dev/cpuset/AppOpt/0.7/tasks \"42\\n\""
    );
    assert!(cpuset_add(false, 42, "0").is_none());
}

#[test]
fn affinity_is_planned() {
    let on = CpuTopology { cpuset_enabled: true, mems_str: String::new() };
    let off = CpuTopology { cpuset_enabled: false, mems_str: String::new() };
    let c = set("7");
    assert!(affinity_set(5, &c, "7", &on, "/b", Some(c)).is_none());
    assert_eq!(
        shown(&affinity_set(5, &c, "7", &on, "/b", None).unwrap().unwrap()),
        "append /b/7/tasks \"5\\n\""
    );
    assert_eq!(
        shown(&affinity_set(-5, &c, "", &on, "/b", Some(set("6"))).unwrap().unwrap()),
        "append /b/tasks \"-5\\n\""
    );
    assert!(affinity_set(5, &c, "7", &off, "/b", None).unwrap().is_none());
}
