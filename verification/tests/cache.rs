use appopt::config::cache::{est_load, is_blacklisted, merge, save};
use appopt::config::AppConfig;
use appopt::cpuset::CpuTopology;
use appopt::document::{is_readable, parse, pretty, Json};

fn empty() -> AppConfig {
    let topo = CpuTopology { cpuset_enabled: false, mems_str: String::new() };
    AppConfig::load("[]", &topo, &Vec::new(), 0).unwrap()
}

fn process(pkg: &str, names: &[&str]) -> (i32, String, Vec<(i32, String)>) {
    let th = names.iter().enumerate().map(|(i, n)| (i as i32, String::from(*n))).collect();
    (2000, String::from(pkg), th)
}

fn rules_of(c: &AppConfig) -> Vec<(String, String, String, i32)> {
    c.rules
        .iter()
        .map(|r| (r.pkg.clone(), r.thread.clone(), r.cpus.clone(), r.prio))
        .collect()
}

fn row(pkg: &str, thread: &str, cpus: &str, prio: i32) -> (String, String, String, i32) {
    (String::from(pkg), String::from(thread), String::from(cpus), prio)
}

#[test]
fn services_are_blacklisted() {
    for pkg in [
        "a:widgetProvider",
        "a:searchDataService",
        "a:coreService",
        "a:cognitionService",
        "a:bert",
        "a:bertAlgo",
        "a:privacy",
        "a:kit7",
        "a:services",
        "a:daemon",
        "android.process.media",
        "android.process.acore",
        "com.qualcomm.x",
        ".qtix",
        ".qms",
        ".cacert",
        ".dataservices.a",
    ] {
        assert!(is_blacklisted(pkg), "{}", pkg);
    }
    for pkg in ["com.game", "a:bert2", "x.android.process.media", "com.qualcomm", ""] {
        assert!(!is_blacklisted(pkg), "{}", pkg);
    }
}

#[test]
fn loads_follow_names() {
    assert_eq!(est_load("RenderThread"), 10);
    assert_eq!(est_load("GLThread 5"), 10);
    assert_eq!(est_load("VideoCodec"), 8);
    assert_eq!(est_load("UnityMain"), 9);
    assert_eq!(est_load("TaskGraphNP 0"), 9);
    assert_eq!(est_load("Worker"), 5);
    assert_eq!(est_load("NetworkIo"), 3);
    assert_eq!(est_load("IdlePool"), 1);
    assert_eq!(est_load("binder:1"), 5);
    // The first list that knows a word counts.
    assert_eq!(est_load("AudioMain"), 8);
    assert_eq!(est_load("ThreadPool"), 5);
}

#[test]
fn cache_is_merged() {
    let data = r#"[
      {"packages": ["a.b", "a.old"], "cpuset": {"other": "4"}},
      {"packages": ["a.b", "a.c"], "cpuset": {"other": "0-3", "comm": {"7": ["Main"]}}},
      {"packages": []},
      {"packages": [1, "x.y"]}
    ]"#;
    let mut c = empty();
    assert_eq!(merge(&mut c.pkg_set, &mut c.rules, data), 2);
    assert_eq!(
        rules_of(&c),
        vec![row("a.b", "", "0-3", 200), row("a.b", "Main", "7", 1004), row("x.y", "", "0", 200)]
    );
    assert!(c.pkg_set.contains("a.b"));
    assert!(c.pkg_set.contains("a.c"));
    assert!(!c.pkg_set.contains("a.old"));
    assert!(c.pkg_set.contains("x.y"));
}

#[test]
fn newest_entry_of_a_package_counts() {
    let data = r#"[{"packages":["a"],"cpuset":{"other":"0"}},{"packages":["a"],"cpuset":{"other":"1"}}]"#;
    let mut c = empty();
    assert_eq!(merge(&mut c.pkg_set, &mut c.rules, data), 1);
    assert_eq!(rules_of(&c), vec![row("a", "", "1", 200)]);
    assert_eq!(c.rules[0].cpuset_dir, "");
    assert!(c.pkg_set.contains("a"));
}

#[test]
fn what_is_no_cache_adds_nothing() {
    let mut c = empty();
    assert_eq!(merge(&mut c.pkg_set, &mut c.rules, ""), 0);
    assert_eq!(merge(&mut c.pkg_set, &mut c.rules, "{}"), 0);
    assert_eq!(merge(&mut c.pkg_set, &mut c.rules, "[}"), 0);
    assert_eq!(c.rules.len(), 0);
}

#[test]
fn rules_are_made_up_and_written() {
    let all = [
        process("a.b", &["UnityMain", "Worker", "Idle"]),
        process("x.y", &["RenderThread"]),
        process("a.b", &["RenderThread"]),
    ];
    let text = save("a.b", &all, "7", "4-6", "0-3", "").unwrap();
    assert_eq!(
        text,
        r#"[
  {
    "friendly": "[auto] a.b",
    "packages": [
      "a.b"
    ],
    "cpuset": {
      "other": "0-3",
      "comm": {
        "4-6": [
          "Worker"
        ],
        "7": [
          "UnityMain",
          "RenderThread"
        ]
      }
    }
  }
]"#
    );
}

#[test]
fn without_middle_cores_only_the_big_ones_are_used() {
    let all = [process("a.b", &["UnityMain", "Worker"])];
    let text = save("a.b", &all, "4-7", "", "0-3", " ").unwrap();
    let mut c = empty();
    assert_eq!(merge(&mut c.pkg_set, &mut c.rules, &text), 1);
    assert_eq!(
        rules_of(&c),
        vec![row("a.b", "", "0-3", 200), row("a.b", "UnityMain", "4-7", 1009)]
    );
}

#[test]
fn equal_lists_of_cores_share_one_field() {
    let all = [process("a.b", &["Worker", "UnityMain"])];
    let text = save("a.b", &all, "4-7", "4-7", "0", "x").unwrap();
    let doc = parse(&text).unwrap();
    let comm = doc.at(0).unwrap().get("cpuset").unwrap().get("comm").unwrap();
    let list = comm.get("4-7").unwrap();
    assert_eq!(list.at(0).unwrap().as_text(), Some("UnityMain"));
    assert_eq!(list.at(1).unwrap().as_text(), Some("Worker"));
}

#[test]
fn idle_applications_get_only_little_cores() {
    let all = [process("a.b", &["Idle"])];
    let text = save("a.b", &all, "7", "", "0-3", "").unwrap();
    let doc = parse(&text).unwrap();
    let cpuset = doc.at(0).unwrap().get("cpuset").unwrap();
    assert!(cpuset.get("comm").is_none());
    assert_eq!(cpuset.get("other").unwrap().as_text(), Some("0-3"));
}

#[test]
fn services_are_not_saved() {
    let all = [process("a:daemon", &["UnityMain"])];
    assert!(save("a:daemon", &all, "7", "", "0", "").is_none());
}

#[test]
fn saving_again_replaces_the_entry() {
    let first = save("a.b", &[process("a.b", &["Idle"])], "7", "", "0-3", "").unwrap();
    let other = save("x.y", &[process("x.y", &["Idle"])], "7", "", "0-3", &first).unwrap();
    let again = save("a.b", &[process("a.b", &["UnityMain"])], "7", "", "1", &other).unwrap();
    let mut c = empty();
    assert_eq!(merge(&mut c.pkg_set, &mut c.rules, &again), 2);
    assert_eq!(
        rules_of(&c),
        vec![
            row("x.y", "", "0-3", 200),
            row("a.b", "", "1", 200),
            row("a.b", "UnityMain", "7", 1009)
        ]
    );
    // The outcome is the one of saving to a cache that never held the package.
    let fresh = save("x.y", &[process("x.y", &["Idle"])], "7", "", "0-3", "").unwrap();
    let direct = save("a.b", &[process("a.b", &["UnityMain"])], "7", "", "1", &fresh).unwrap();
    assert_eq!(again, direct);
}

#[test]
fn unreadable_caches_are_started_anew() {
    let all = [process("a.b", &["Idle"])];
    let fresh = save("a.b", &all, "7", "", "0", "").unwrap();
    assert_eq!(save("a.b", &all, "7", "", "0", "[oops").unwrap(), fresh);
    assert_eq!(save("a.b", &all, "7", "", "0", "{}").unwrap(), fresh);
}

#[test]
fn entry_that_starts_with_no_text_gives_way() {
    let old = r#"[{"packages": [1, "a.b"], "cpuset": {"other": "5"}}]"#;
    let all = [process("a.b", &["Idle"])];
    let text = save("a.b", &all, "7", "", "0", old).unwrap();
    let mut c = empty();
    assert_eq!(merge(&mut c.pkg_set, &mut c.rules, &text), 1);
    assert_eq!(rules_of(&c), vec![row("a.b", "", "0", 200)]);
}

#[test]
fn saving_the_same_twice_changes_nothing() {
    let all = [process("a.b", &["UnityMain", "Worker"])];
    let first = save("a.b", &all, "7", "4-6", "0-3", "").unwrap();
    assert!(is_readable(&first));
    assert!(first.starts_with('['));
    assert_eq!(save("a.b", &all, "7", "4-6", "0-3", &first).unwrap(), first);
    let odd = save("a.b", &all, "7", "4-6", "0-3", r#"[{"packages": ["x"], "n": 1.50e3}]"#).unwrap();
    let again = save("a.b", &all, "7", "4-6", "0-3", &odd).unwrap();
    let count = |t: &str| match parse(t).unwrap() {
        Json::Array(v) => v.len(),
        _ => 0,
    };
    assert_eq!((count(&odd), count(&again)), (2, 2));
}

#[test]
fn first_save_is_merged_as_made_up() {
    let all = [process("a.b", &["Worker", "UnityMain", "Idle"])];
    let text = save("a.b", &all, "4-7", "3", "0-2", "").unwrap();
    let mut c = empty();
    assert_eq!(merge(&mut c.pkg_set, &mut c.rules, &text), 1);
    assert_eq!(
        rules_of(&c),
        vec![
            row("a.b", "", "0-2", 200),
            row("a.b", "Worker", "3", 1006),
            row("a.b", "UnityMain", "4-7", 1009)
        ]
    );
}

#[test]
fn caches_with_numbers_stay_as_they_are_read() {
    let all = [process("a.b", &["UnityMain"])];
    let next = |old: &str| save("a.b", &all, "7", "4-6", "0-3", old).unwrap();
    let read = |t: &str| pretty(&parse(t).unwrap(), 2);
    let plain_forms = [
        "0",
        "-0",
        "7",
        "18446744073709551615",
        "1.50",
        "0.05",
        "-12.0e-3",
        "1e5",
        "99e18",
        "18446744073709551619",
        "1.8446744073709551615e-40",
        "3e-300",
        "5e32767",
        "0.00",
        "-0.0e7",
        "1234567890.12345678901234567890",
    ];
    for n in plain_forms {
        let first = next(&format!("[{{\"packages\": [\"x\"], \"n\": {}}}]", n));
        let again = next(&first);
        assert_eq!(again, first, "{}", n);
    }
    // At the edge of the exponent the form changes once, and what is read does not.
    for n in ["12e32767", "5e-32767", "1.5e-32767", "123456789e32760", "0.1e-32767", "9e99999"] {
        let first = next(&format!("[{{\"packages\": [\"x\"], \"n\": {}}}]", n));
        let again = next(&first);
        assert_eq!(read(&again), read(&first), "{}", n);
        assert_eq!(next(&again), again, "{}", n);
    }
}
