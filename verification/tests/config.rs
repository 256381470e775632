use appopt::config::{cpuset_requests, fnmatch, greets, rule_prio, AppConfig};
use appopt::cpuset::CpuTopology;

fn topo(enabled: bool) -> CpuTopology {
    CpuTopology { cpuset_enabled: enabled, mems_str: String::from("0") }
}

const CONFIG: &str = r#"{
  "features": {"ebpf": true},
  "rules": [
    {"friendly": "game",
     "packages": ["com.game", "com.game.*"],
     "cpuset": {"other": "0-3",
                "comm": {"7": ["UnityMain", "Render*"], "4-6": ["Job?", 5]}}},
    {"packages": [], "cpuset": {"other": "1"}},
    {"packages": ["org.tool"], "cpuset": {}}
  ]
}"#;

fn read(data: &str, enabled: bool, made: Vec<bool>) -> Option<AppConfig> {
    AppConfig::load(data, &topo(enabled), &made, 77)
}

#[test]
fn pattern_without_star_matches_itself() {
    assert!(fnmatch("RenderThread", "RenderThread"));
    assert!(!fnmatch("RenderThread", "RenderThread1"));
    assert!(!fnmatch("", ""));
    assert!(!fnmatch("", "a"));
}

#[test]
fn pattern_with_star_fixes_both_ends() {
    assert!(fnmatch("*", ""));
    assert!(fnmatch("*", "anything"));
    assert!(fnmatch("Render*", "RenderThread"));
    assert!(fnmatch("Render*", "Render"));
    assert!(!fnmatch("Render*", "Rende"));
    assert!(fnmatch("*Thread", "RenderThread"));
    assert!(fnmatch("a*b", "ab"));
    assert!(fnmatch("a*b", "axxb"));
    // The two ends may not overlap.
    assert!(!fnmatch("ab*ba", "aba"));
    assert!(fnmatch("ab*ba", "abba"));
    // Only the first star stands for any text.
    assert!(!fnmatch("a*b*", "axbx"));
    assert!(fnmatch("a*b*", "axb*"));
    // A question mark stands for itself.
    assert!(!fnmatch("Job?", "Job1"));
    assert!(fnmatch("Job?", "Job?"));
}

#[test]
fn pattern_matches_beyond_ascii() {
    assert!(fnmatch("\u{7ebf}*\u{7a0b}", "\u{7ebf}x\u{7a0b}"));
    assert!(!fnmatch("\u{7ebf}*", "\u{7a0b}"));
}

#[test]
fn priorities_have_exact_values() {
    assert_eq!(rule_prio(""), 200);
    assert_eq!(rule_prio("UnityMain"), 1009);
    assert_eq!(rule_prio("\u{7ebf}"), 1003);
    assert_eq!(rule_prio("Render*"), 106);
    assert_eq!(rule_prio("*"), 100);
    assert_eq!(rule_prio("Job?"), 303);
    assert_eq!(rule_prio("Job[0-9]*"), 506);
    assert_eq!(rule_prio("Job[0-9]"), 1008);
}

#[test]
fn exact_name_comes_before_patterns() {
    assert!(rule_prio("Job1") > rule_prio("Job[0-9]*"));
    assert!(rule_prio("Job[0-9]*") > rule_prio("Job?"));
    assert!(rule_prio("Job?") > rule_prio(""));
    assert!(rule_prio("") > rule_prio("Job*"));
}

#[test]
fn configuration_is_read() {
    let c = read(CONFIG, false, Vec::new()).unwrap();
    assert!(c.ebpf);
    assert_eq!(c.mtime, 77);
    assert!(!c.topo.cpuset_enabled);
    assert_eq!(c.topo.mems_str, "0");
    let got: Vec<(&str, &str, &str, i32, &str)> = c
        .rules
        .iter()
        .map(|r| (r.pkg.as_str(), r.thread.as_str(), r.cpus.as_str(), r.prio, r.cpuset_dir.as_str()))
        .collect();
    assert_eq!(
        got,
        vec![
            ("com.game", "", "0-3", 200, ""),
            ("com.game", "UnityMain", "7", 1009, ""),
            ("com.game", "Render*", "7", 106, ""),
            ("com.game", "Job?", "4-6", 303, ""),
            ("org.tool", "", "0", 200, ""),
        ]
    );
    assert!(c.pkg_set.contains("com.game"));
    assert!(c.pkg_set.contains("com.game.*"));
    assert!(c.pkg_set.contains("org.tool"));
    assert!(!c.pkg_set.contains("com.other"));
    assert_eq!(c.wild, vec![String::from("com.game.*")]);
}

#[test]
fn array_is_a_configuration() {
    let c = read(r#"[{"packages": ["a.b"]}]"#, false, Vec::new()).unwrap();
    assert!(!c.ebpf);
    assert_eq!(c.rules.len(), 1);
    assert_eq!(c.rules[0].cpus, "0");
}

#[test]
fn no_configuration_in_other_documents() {
    assert!(read("", false, Vec::new()).is_none());
    assert!(read("{", false, Vec::new()).is_none());
    assert!(read("{}", false, Vec::new()).is_none());
    assert!(read(r#"{"rules": {}}"#, false, Vec::new()).is_none());
    assert!(read("3", false, Vec::new()).is_none());
}

#[test]
fn greeting_alone_is_no_configuration() {
    assert!(read(r#"{"nekonemo": "meow"}"#, false, Vec::new()).is_none());
    let c = read(r#"{"nekonemo": "meow", "rules": []}"#, false, Vec::new()).unwrap();
    assert_eq!(c.rules.len(), 0);
    assert!(read(r#"{"nekonemo": "woof", "rules": []}"#, false, Vec::new()).is_some());
    assert!(greets(r#"{"nekonemo": "meow"}"#));
    assert!(!greets(r#"{"nekonemo": "meow", "rules": []}"#));
    assert!(!greets(r#"{"nekonemo": "woof"}"#));
    assert!(!greets(r#"["nekonemo"]"#));
    assert!(!greets("{"));
}

#[test]
fn directories_are_requested_for_named_packages() {
    let got = cpuset_requests(CONFIG, &topo(true), "/dev/cpuset/base");
    let got: Vec<(String, String, String)> =
        got.into_iter().map(|r| (r.path, r.cpus, r.mems)).collect();
    assert_eq!(
        got,
        vec![
            (
                String::from("/dev/cpuset/base/0-3"),
                String::from("0-3"),
                String::from("0")
            ),
            (String::from("/dev/cpuset/base/0"), String::from("0"), String::from("0")),
        ]
    );
    assert_eq!(cpuset_requests(CONFIG, &topo(false), "/b").len(), 0);
    assert_eq!(cpuset_requests("{}", &topo(true), "/b").len(), 0);
    assert_eq!(cpuset_requests("x", &topo(true), "/b").len(), 0);
}

#[test]
fn directories_that_are_there_are_kept() {
    let c = read(CONFIG, true, vec![true, false]).unwrap();
    assert_eq!(c.rules[0].cpuset_dir, "0-3");
    assert_eq!(c.rules[1].cpuset_dir, "");
    assert_eq!(c.rules[4].cpuset_dir, "");
    let c = read(CONFIG, true, vec![false, true]).unwrap();
    assert_eq!(c.rules[0].cpuset_dir, "");
    assert_eq!(c.rules[4].cpuset_dir, "0");
    // Without cpusets there is no directory.
    let c = read(CONFIG, false, vec![true, true]).unwrap();
    assert_eq!(c.rules[0].cpuset_dir, "");
}

#[test]
fn directory_is_named_by_ranges() {
    let data = r#"[{"packages": ["a.b"], "cpuset": {"other": " 2, 0,1 ,7"}}]"#;
    let c = read(data, true, vec![true]).unwrap();
    assert_eq!(c.rules[0].cpus, " 2, 0,1 ,7");
    assert_eq!(c.rules[0].cpuset_dir, "0-2,7");
}

#[test]
fn packages_with_thread_rules_are_told() {
    let c = read(CONFIG, false, Vec::new()).unwrap();
    assert!(c.pkg_has_thread_rules("com.game"));
    assert!(!c.pkg_has_thread_rules("com.game:ui"));
    assert!(!c.pkg_has_thread_rules("org.tool"));
}
