use appopt::bytes::ByteOrder;
use appopt::config::cache::{merge, save};
use appopt::config::AppConfig;
use appopt::cpuset::{CpuSet, CpuTopology};
use appopt::process::{
    dirents_valid, is_app_process, listed_pids, pkg_matches, place, read_cmdline, scan,
    scan_one_pid, scan_unknown, target_package, task_tids, tid_comm, ProcDir, Snapshot, Task,
};

const CONFIG: &str = r#"[
  {"packages": ["com.game", "org.*"],
   "cpuset": {"other": "0-3", "comm": {"7": ["UnityMain", "Render*"], "4-6": ["Job1", "*"]}}},
  {"packages": ["*"], "cpuset": {"other": "1", "comm": {"2": ["Job1"]}}}
]"#;

fn config(data: &str) -> AppConfig {
    let topo = CpuTopology { cpuset_enabled: false, mems_str: String::new() };
    AppConfig::load(data, &topo, &Vec::new(), 0).unwrap()
}

fn task(name: &str, comm: &str) -> Task {
    Task { name: String::from(name), comm: Some(String::from(comm)) }
}

#[test]
fn packages_match_their_parts() {
    assert!(pkg_matches("com.game", "com.game"));
    assert!(pkg_matches("com.game", "com.game:ui"));
    assert!(!pkg_matches("com.game", "com.games"));
    assert!(!pkg_matches("com.game", "com.gam"));
    assert!(pkg_matches("com.*", "com.game:ui"));
    assert!(!pkg_matches("com.game", "xcom.game:ui"));
}

#[test]
fn highest_priority_places_a_thread() {
    let c = config(CONFIG);
    let mask = |comm: &str| place(&c.rules, "com.game", comm).mask;
    assert_eq!(mask("UnityMain"), 1 << 7);
    assert_eq!(mask("RenderThread"), 0b1111);
    assert_eq!(mask("Other"), 0b1111);
    // Of two rules of the same priority the first counts.
    assert_eq!(mask("Job1"), 0b111_0000);
    assert_eq!(place(&c.rules, "net.x", "Job1").mask, 0b100);
    assert_eq!(place(&c.rules, "net.x", "Job2").mask, 0b10);
    let none = config("[]");
    assert_eq!(place(&none.rules, "com.game", "UnityMain"), CpuSet::new());
}

#[test]
fn command_lines_name_processes() {
    assert_eq!(read_cmdline(Some("com.game\0-x\0")), Some(String::from("com.game")));
    assert_eq!(read_cmdline(Some("com.game")), Some(String::from("com.game")));
    assert_eq!(read_cmdline(Some("\0x")), None);
    assert_eq!(read_cmdline(Some("")), None);
    assert_eq!(read_cmdline(None), None);
}

#[test]
fn thread_directories_are_numbers() {
    let names = [String::from("12"), String::from("x"), String::from("-3")];
    assert_eq!(task_tids(Some(&names)), Some(vec![12, -3]));
    assert_eq!(task_tids(None), None);
}

#[test]
fn thread_names_are_trimmed() {
    assert_eq!(tid_comm(Some(" a b\n")), Some(String::from("a b")));
    assert_eq!(tid_comm(Some("\n")), None);
    assert_eq!(tid_comm(None), None);
}

#[test]
fn configured_processes_are_targets() {
    let c = config(r#"[{"packages": ["com.game", "org.*"]}]"#);
    let target = |pid: i32, cl: &str| target_package(pid, Some(cl), &c.pkg_set, &c.wild);
    assert_eq!(target(1000, "com.game"), Some(String::from("com.game")));
    assert_eq!(target(1000, "com.game:ui"), Some(String::from("com.game:ui")));
    assert_eq!(target(1000, "org.tool:x"), Some(String::from("org.tool:x")));
    assert_eq!(target(1000, "net.x"), None);
    assert_eq!(target(999, "com.game"), None);
}

#[test]
fn one_process_is_scanned() {
    let c = config(CONFIG);
    let tasks = [
        task("1234", "com.game\n"),
        task("1240", "UnityMain\n"),
        Task { name: String::from("x"), comm: None },
    ];
    let got = scan_one_pid(1234, Some("com.game\0"), Some(&tasks), &c.rules, &c.pkg_set, &c.wild);
    assert_eq!(
        got,
        Some((
            1234,
            String::from("com.game"),
            vec![
                (1234, String::from("com.game"), CpuSet { mask: 0b1111 }),
                (1240, String::from("UnityMain"), CpuSet { mask: 0b1000_0000 }),
                (0, String::new(), CpuSet { mask: 0b1111 }),
            ]
        ))
    );
    let none: [Task; 0] = [];
    assert!(scan_one_pid(1234, Some("com.game"), Some(&none), &c.rules, &c.pkg_set, &c.wild)
        .is_none());
    assert!(scan_one_pid(1234, Some("com.game"), None, &c.rules, &c.pkg_set, &c.wild).is_none());
    assert!(scan_one_pid(999, Some("com.game"), Some(&tasks), &c.rules, &c.pkg_set, &c.wild)
        .is_none());
}

#[test]
fn all_processes_are_scanned_in_order() {
    let c = config(r#"[{"packages": ["a.b", "x.y"], "cpuset": {"other": "2"}}]"#);
    let shot = |pid: i32, cl: &str| Snapshot {
        pid,
        cmdline: Some(String::from(cl)),
        tasks: Some(vec![task("7", "t")]),
    };
    let found = [shot(1001, "x.y"), shot(1002, "other"), shot(1003, "a.b")];
    let got = scan(0, &found, &c.rules, &c.pkg_set, &c.wild);
    let pids: Vec<i32> = got.iter().map(|p| p.0).collect();
    assert_eq!(pids, vec![1001, 1003]);
    // The rule is for the first package of its entry.
    assert_eq!(got[0].2[0].2.mask, 0);
    assert_eq!(got[1].2[0].2.mask, 0b100);
    // A list that could not be read to its end counts for nothing.
    assert!(scan(-1, &found, &c.rules, &c.pkg_set, &c.wild).is_empty());
}

#[test]
fn application_users_are_told() {
    assert!(is_app_process("Name:\tx\nUid:\t10123\t10123\nGid:\t1\n"));
    assert!(is_app_process("Uid: 10000"));
    assert!(!is_app_process("Uid: 9999"));
    assert!(!is_app_process("Uid:\nUid: 10000"));
    assert!(!is_app_process("Uid: x 10000"));
    assert!(!is_app_process("Uid: 4294967296"));
    assert!(is_app_process("Uid: 4294967295"));
    assert!(!is_app_process(" Uid: 10000"));
    assert!(!is_app_process(""));
}

fn dir(name: &str, cl: &str) -> ProcDir {
    ProcDir {
        name: String::from(name),
        cmdline: Some(String::from(cl)),
        status: Some(String::from("Uid:\t10001\t10001")),
        tasks: Some(vec![task("1500", "main\n")]),
    }
}

#[test]
fn unknown_applications_are_found() {
    let c = config(r#"[{"packages": ["a.known", "w.*"]}]"#);
    let mut no_status = dir("1006", "b.four");
    no_status.status = None;
    let mut no_threads = dir("1007", "b.five");
    no_threads.tasks = Some(Vec::new());
    let mut system = dir("1008", "b.six");
    system.status = Some(String::from("Uid:\t1000"));
    let found = [
        dir("1000", "b.one"),
        dir("999", "b.two"),
        dir("x", "b.three"),
        dir("1001", "a.known"),
        dir("1002", "w.x"),
        dir("1003", "/system/b.in"),
        dir("1004", "nodot"),
        dir("1005", ""),
        no_status,
        no_threads,
        system,
        dir("1009", "a.known:part"),
    ];
    let got = scan_unknown(Some(&found), &c.pkg_set, &c.wild);
    assert_eq!(
        got,
        vec![
            (1000, String::from("b.one"), vec![(1500, String::from("main"))]),
            (1009, String::from("a.known:part"), vec![(1500, String::from("main"))]),
        ]
    );
    assert!(scan_unknown(None, &c.pkg_set, &c.wild).is_empty());
}

#[test]
fn saved_application_is_known_after_merging() {
    let mut c = config("[]");
    let found = [dir("1000", "b.one")];
    let unknown = scan_unknown(Some(&found), &c.pkg_set, &c.wild);
    assert_eq!(unknown.len(), 1);
    let text = save("b.one", &unknown, "7", "4-6", "0-3", "").unwrap();
    merge(&mut c.pkg_set, &mut c.rules, &text);
    assert!(scan_unknown(Some(&found), &c.pkg_set, &c.wild).is_empty());
    // Its only thread has a name of rank nine, which is for the big cores.
    let tasks = [task("1500", "Main")];
    let got = scan_one_pid(1000, Some("b.one"), Some(&tasks), &c.rules, &c.pkg_set, &c.wild);
    assert_eq!(got.unwrap().2[0].2.mask, 0b1111);
}

fn record(ino: u64, name: &[u8], len: u16) -> Vec<u8> {
    let mut r = ino.to_le_bytes().to_vec();
    r.extend([0u8; 8]);
    r.extend(len.to_le_bytes());
    r.push(4);
    r.extend(name);
    r.resize(len as usize, 0);
    r
}

#[test]
fn directory_records_name_processes() {
    let mut buf = Vec::new();
    buf.extend(record(1, b".", 24));
    buf.extend(record(2, b"1000", 24));
    buf.extend(record(0, b"1001", 24));
    buf.extend(record(3, b"999", 24));
    buf.extend(record(4, b"meminfo", 32));
    buf.extend(record(5, b"20000", 32));
    let n = buf.len();
    buf.extend([0u8; 40]);
    assert!(dirents_valid(&buf, n, ByteOrder::Little));
    assert_eq!(listed_pids(&buf, n, ByteOrder::Little), vec![1000, 20000]);
    assert_eq!(listed_pids(&buf, 0, ByteOrder::Little), Vec::<i32>::new());
}

#[test]
fn name_without_end_loses_its_last_byte() {
    let buf = record(1, b"12345", 24);
    assert_eq!(listed_pids(&buf, 24, ByteOrder::Little), vec![1234]);
}

#[test]
fn broken_directory_records_are_told() {
    // A record without a length would never end.
    assert!(!dirents_valid(&[0u8; 24], 24, ByteOrder::Little));
    // One that leaves no room for a name.
    let short = record(1, b"", 19);
    assert!(!dirents_valid(&short, 19, ByteOrder::Little));
    // One that is longer than what is there.
    let long = record(1, b"1000", 24);
    assert!(!dirents_valid(&long[..23], 23, ByteOrder::Little));
    assert!(dirents_valid(&[], 0, ByteOrder::Little));
}

#[test]
fn directory_records_in_the_other_order() {
    let mut buf = 7u64.to_be_bytes().to_vec();
    buf.extend([0u8; 8]);
    buf.extend(24u16.to_be_bytes());
    buf.push(4);
    buf.extend(b"1000\0");
    assert!(dirents_valid(&buf, 24, ByteOrder::Big));
    assert_eq!(listed_pids(&buf, 24, ByteOrder::Big), vec![1000]);
}
