use appopt::cpuset::CpuSet;
use appopt::runner::{
    binds_itself, event_timeout, half_round, note_process, parse_args, reload_due, Counters, Round,
    Seen, Step,
};

fn options(args: &[&str]) -> (String, u64) {
    let args: Vec<String> = args.iter().map(|a| String::from(*a)).collect();
    let o = parse_args(&args);
    (o.config_path, o.interval)
}

#[test]
fn options_have_defaults() {
    let path = String::from("/sdcard/Android/Aether/threads.json");
    assert_eq!(options(&["appopt"]), (path.clone(), 2));
    assert_eq!(options(&[]), (path.clone(), 2));
    assert_eq!(options(&["appopt", "-x", "y"]), (path.clone(), 2));
    assert_eq!(options(&["appopt", "-c"]), (path.clone(), 2));
    assert_eq!(options(&["-c", "x", "-s"]), (path, 2));
}

#[test]
fn options_are_read() {
    assert_eq!(options(&["appopt", "-c", "a", "-s", "5"]), (String::from("a"), 5));
    assert_eq!(options(&["appopt", "-s", "5", "-c", "a", "-c", "b"]), (String::from("b"), 5));
    assert_eq!(options(&["appopt", "-c", "-s", "5"]).0, "-s");
    assert_eq!(options(&["appopt", "-c", "-s", "5"]).1, 2);
    assert_eq!(options(&["appopt", "-s", "x"]).1, 2);
    assert_eq!(options(&["appopt", "-s", "0"]).1, 1);
    assert_eq!(options(&["appopt", "-s", "-1"]).1, 2);
}

#[test]
fn daemon_binds_itself_to_little_cores() {
    assert!(binds_itself("0-3"));
    assert!(binds_itself("1"));
    assert!(!binds_itself("0"));
    assert!(!binds_itself(""));
}

#[test]
fn later_files_are_read_again() {
    assert!(reload_due(Some(5), 4));
    assert!(!reload_due(Some(5), 5));
    assert!(!reload_due(Some(4), 5));
    assert!(!reload_due(None, 5));
}

#[test]
fn rounds_are_halved() {
    assert_eq!(half_round(2), 1000);
    assert_eq!(event_timeout(2), 1000);
    assert_eq!(event_timeout(4294967), 2147483500);
    assert_eq!(event_timeout(4294968), i32::MAX);
    assert_eq!(event_timeout(u64::MAX / 500), i32::MAX);
}

fn entry(pid: i32, pkg: &str) -> (i32, String, Vec<(i32, String, CpuSet)>) {
    (pid, String::from(pkg), Vec::new())
}

#[test]
fn processes_are_noted_in_place() {
    let mut seen = vec![entry(1, "a"), entry(2, "b")];
    note_process(&mut seen, entry(2, "c"));
    note_process(&mut seen, entry(3, "d"));
    let got: Vec<(i32, &str)> = seen.iter().map(|p| (p.0, p.1.as_str())).collect();
    assert_eq!(got, vec![(1, "a"), (2, "c"), (3, "d")]);
}

#[test]
fn rounds_are_counted() {
    let mut c = Counters::new();
    let mut scans = Vec::new();
    let mut rebinds = Vec::new();
    for round in 1..=95 {
        if round == 40 {
            c.hurry();
        }
        if c.scan_due() {
            scans.push(round);
        }
        assert!(c.bind_due());
        if c.rebind_due() {
            rebinds.push(round);
        }
    }
    assert_eq!(scans, vec![30, 60, 90]);
    assert_eq!(rebinds, vec![30, 60, 90]);
}

/// The steps of one round, in which the given things are seen.
fn steps(round: &mut Round, seen: &[(Step, Seen)]) -> Vec<Step> {
    let mut done = Vec::new();
    loop {
        done.push(round.step);
        let what = seen.iter().find(|s| s.0 == round.step).map(|s| s.1).unwrap_or(Seen::Nothing);
        round.advance(what);
        if round.step == Step::Poll {
            return done;
        }
    }
}

#[test]
fn most_rounds_only_bind() {
    let mut r = Round::new(true, true);
    assert_eq!(
        steps(&mut r, &[(Step::Poll, Seen::Reported(true))]),
        vec![Step::Poll, Step::Bind, Step::Sleep, Step::AwaitEvent]
    );
    let mut r = Round::new(false, false);
    assert_eq!(steps(&mut r, &[]), vec![Step::Poll, Step::Bind, Step::Sleep]);
}

#[test]
fn changed_configurations_are_taken_over_in_order() {
    let seen = [
        (Step::AskChanged, Seen::Changed(Some(5), 4)),
        (Step::Reload, Seen::Loaded(true)),
        (Step::Adopt, Seen::Adopted(2)),
    ];
    for (bpf, failing) in [(true, false), (false, false), (true, true)] {
        let mut r = Round::new(bpf, false);
        for _ in 0..29 {
            assert_eq!(steps(&mut r, &seen).len(), 3);
        }
        let mut seen = seen;
        if failing {
            seen[1].1 = Seen::Loaded(false);
        }
        let mut want = vec![Step::Poll, Step::AskChanged, Step::Reload];
        if !failing {
            want.push(Step::Rescan);
            if bpf {
                want.push(Step::Sync);
            }
            want.extend([Step::Merge, Step::Forget]);
        }
        want.extend([Step::Adopt, Step::MergeAdopted, Step::Bind, Step::ForgetAll, Step::Sleep]);
        assert_eq!(steps(&mut r, &seen), want);
    }
}

#[test]
fn unchanged_configurations_stay() {
    let mut r = Round::new(true, false);
    for _ in 0..29 {
        steps(&mut r, &[]);
    }
    assert_eq!(
        steps(&mut r, &[(Step::AskChanged, Seen::Changed(Some(4), 4))]),
        vec![Step::Poll, Step::AskChanged, Step::Adopt, Step::Bind, Step::ForgetAll, Step::Sleep]
    );
}
