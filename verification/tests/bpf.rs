use appopt::bpf::loading::{probe, Answer, Probe, Request, Stage};
use appopt::bpf::{bpf_fail, poll_new_pids, set_rule, sync_rules, BpfCtx, NO_FD};
use appopt::bytes::ByteOrder;
use appopt::config::AppConfig;
use appopt::cpuset::CpuTopology;

fn loaded() -> BpfCtx {
    BpfCtx {
        ok: true,
        ring_fd: 10,
        prog_fd: 12,
        prog2_fd: 13,
        pe_fd: 14,
        pe_fd2: 15,
        pe_fd3: 16,
        rule_map_fd: 11,
    }
}

fn number(n: i32) -> Answer {
    Answer::Number(n)
}

fn id(s: &str) -> Answer {
    Answer::Text(Some(String::from(s)))
}

/// Answers one request after the other, and says what was asked.
fn run(mut p: Probe, answers: &[Answer]) -> (Probe, Vec<String>) {
    let mut asked = Vec::new();
    for a in answers {
        asked.push(name(&p.request()));
        p.advance(a);
    }
    (p, asked)
}

fn name(r: &Request) -> String {
    match r {
        Request::CreateMap(m) => format!(
            "map {} {} {} {} {}",
            m.kind, m.key_size, m.value_size, m.max_entries, m.flags
        ),
        Request::LoadProgram(kind, words) => format!("program {} {}", kind, words.len()),
        Request::ReadFile(path) => format!("read {}", path),
        Request::OpenEvent(attr) => format!("event {:x} {} {}", attr[0], attr[1], attr.len()),
        Request::SetProgram(event, prog) => format!("set {} {}", event, prog),
        Request::EnableEvent(event) => format!("enable {}", event),
        Request::Close(fds) => format!("close {:?}", fds),
        Request::Done(ctx) => format!("done {}", ctx.ok),
    }
}

#[test]
fn descriptors_are_closed_in_order() {
    assert_eq!(loaded().open_fds(), vec![16, 15, 14, 13, 12, 11, 10]);
    assert!(bpf_fail().open_fds().is_empty());
    let some = BpfCtx { pe_fd2: NO_FD, prog2_fd: 0, ..loaded() };
    assert_eq!(some.open_fds(), vec![16, 14, 0, 12, 11, 10]);
}

#[test]
fn rules_are_handed_over_where_they_can_be() {
    let u = set_rule(&loaded(), &[7; 16], 5).unwrap();
    assert_eq!((u.fd, u.key, u.value, u.flags), (11, [7; 16], 5, 0));
    assert!(set_rule(&bpf_fail(), &[7; 16], 5).is_none());
    assert!(loaded().can_take_rules());
    assert!(!bpf_fail().can_take_rules());
    assert!(set_rule(&BpfCtx { rule_map_fd: NO_FD, ..loaded() }, &[7; 16], 5).is_none());
}

#[test]
fn thread_rules_go_to_the_kernel() {
    let topo = CpuTopology { cpuset_enabled: false, mems_str: String::new() };
    let data = r#"[{"packages": ["a.b"],
        "cpuset": {"other": "0", "comm": {"4-6,70": ["UnityMain"], "x": ["ABCDEFGHIJKLMNOPQ"]}}}]"#;
    let c = AppConfig::load(data, &topo, &Vec::new(), 0).unwrap();
    let got = sync_rules(&loaded(), &c.rules);
    assert_eq!(got.len(), 2);
    assert_eq!(&got[0].key, b"UnityMain\0\0\0\0\0\0\0");
    assert_eq!(got[0].value, 0b111_0000);
    assert_eq!(&got[1].key, b"ABCDEFGHIJKLMNO\0");
    assert_eq!(got[1].value, 0);
    assert!(sync_rules(&bpf_fail(), &c.rules).is_empty());
}

fn record(len: u64, pid: i32) -> Vec<u8> {
    let mut r = (len << 48).to_le_bytes().to_vec();
    r.extend(pid.to_le_bytes());
    r.resize(((len + 7) / 8 * 8) as usize, 0);
    r
}

#[test]
fn reported_processes_are_read() {
    let mut one = record(12, 1234);
    one.extend(record(12, 0));
    one.extend(record(12, -1));
    one.extend(record(8, 0));
    one.extend(record(20, 77));
    let two = record(12, 5);
    let chunks = [one, two];
    assert_eq!(poll_new_pids(&loaded(), &chunks, ByteOrder::Little), vec![1234, 77, 5]);
    assert!(poll_new_pids(&bpf_fail(), &chunks, ByteOrder::Little).is_empty());
}

#[test]
fn broken_records_are_passed_over() {
    // A header without a length, then one that says more than is there, then a good one.
    let mut buf = vec![0u8; 8];
    buf.extend((500u64 << 48).to_le_bytes());
    buf.extend(record(12, 9));
    assert_eq!(poll_new_pids(&loaded(), &[buf], ByteOrder::Little), vec![9]);
    assert!(poll_new_pids(&loaded(), &[vec![1, 2, 3]], ByteOrder::Little).is_empty());
}

#[test]
fn records_in_the_other_order_are_read() {
    let mut buf = (12u64 << 48).to_be_bytes().to_vec();
    buf.extend(300i32.to_be_bytes());
    buf.extend([0; 4]);
    assert_eq!(poll_new_pids(&loaded(), &[buf], ByteOrder::Big), vec![300]);
}

#[test]
fn loading_that_is_not_wanted_is_finished() {
    let p = probe(false);
    assert_eq!(p.stage, Stage::Finished);
    assert_eq!(p.ctx, bpf_fail());
    assert_eq!(name(&p.request()), "done false");
}

#[test]
fn everything_is_loaded() {
    let answers = [
        number(10),
        number(11),
        number(12),
        number(13),
        id("270\n"),
        number(14),
        number(0),
        number(0),
        id("280"),
        number(15),
        number(0),
        number(0),
        id("270"),
        number(16),
        number(0),
        number(0),
    ];
    let (p, asked) = run(probe(true), &answers);
    assert_eq!(p.stage, Stage::Finished);
    assert_eq!(p.ctx, loaded());
    assert_eq!(
        asked,
        vec![
            "map 27 0 0 4096 0",
            "map 1 16 8 1024 0",
            "program 5 12",
            "program 7 25",
            "read /sys/kernel/tracing/events/sched/sched_process_exec/id",
            "event 4000000002 270 16",
            "set 14 12",
            "enable 14",
            "read /sys/kernel/tracing/events/sched/sched_process_fork/id",
            "event 4000000002 280 16",
            "set 15 12",
            "enable 15",
            "read /sys/kernel/tracing/events/sched/sched_process_exec/id",
            "event 4000000002 270 16",
            "set 16 13",
            "enable 16",
        ]
    );
    // An answer after the end changes nothing.
    let mut q = p;
    q.advance(&number(3));
    assert_eq!(q, p);
}

#[test]
fn programs_load_their_maps() {
    let (p, _) = run(probe(true), &[number(10), number(11)]);
    match p.request() {
        Request::LoadProgram(5, words) => {
            assert_eq!(words[4], 0x0000_000a_0000_1118);
            assert_eq!(words[0], 0x16bf);
            assert_eq!(words[11], 0x95);
        }
        _ => panic!("no program"),
    }
    let (p, _) = run(p, &[number(12)]);
    match p.request() {
        Request::LoadProgram(7, words) => {
            assert_eq!(words[8], 0x0000_000b_0000_1118);
            assert_eq!(words[22], 0x0000_00d7_0000_0085);
            assert_eq!(words[24], 0x95);
        }
        _ => panic!("no program"),
    }
}

#[test]
fn failures_close_what_is_open() {
    let (p, _) = run(probe(true), &[number(-1)]);
    assert_eq!((p.stage, p.ctx), (Stage::Finished, bpf_fail()));
    let (p, asked) = run(probe(true), &[number(10), number(-1), number(0)]);
    assert_eq!((p.stage, p.ctx), (Stage::Finished, bpf_fail()));
    assert_eq!(asked[2], "close [10]");
    let (p, asked) = run(probe(true), &[number(10), number(11), number(-1), number(0)]);
    assert_eq!((p.stage, p.ctx), (Stage::Finished, bpf_fail()));
    assert_eq!(asked[3], "close [10, 11]");
}

#[test]
fn binding_program_is_loaded_as_another_kind() {
    let (p, asked) = run(probe(true), &[number(10), number(11), number(12), number(-1), number(13)]);
    assert_eq!(asked[4], "program 5 25");
    assert_eq!(p.ctx.prog2_fd, 13);
}

#[test]
fn without_the_binding_program_the_rest_stays() {
    let answers = [number(10), number(11), number(12), number(-1), number(-1)];
    let (p, asked) = run(probe(true), &answers);
    assert!(asked.iter().all(|a| !a.starts_with("close")));
    assert_eq!(p.stage, Stage::Finished);
    assert_eq!(name(&p.request()), "done true");
    assert_eq!((p.ctx.ring_fd, p.ctx.prog_fd, p.ctx.rule_map_fd), (10, 12, 11));
    assert_eq!((p.ctx.prog2_fd, p.ctx.pe_fd, p.ctx.pe_fd2, p.ctx.pe_fd3), (-1, -1, -1, -1));
    assert_eq!(p.ctx.open_fds(), vec![12, 11, 10]);
}

#[test]
fn events_that_fail_are_left_out() {
    let answers = [
        number(10),
        number(11),
        number(12),
        number(13),
        Answer::Text(None),
        id("x"),
        id("270"),
        number(16),
        number(-1),
        number(0),
    ];
    let (p, asked) = run(probe(true), &answers);
    assert_eq!(asked[9], "close [16]");
    assert_eq!(p.stage, Stage::Finished);
    assert!(p.ctx.ok);
    assert_eq!((p.ctx.pe_fd, p.ctx.pe_fd2, p.ctx.pe_fd3), (-1, -1, -1));
    let answers = [number(10), number(11), number(12), number(13), id("270"), number(-1)];
    let (p, asked) = run(probe(true), &answers);
    assert_eq!(asked[5], "event 4000000002 270 16");
    assert_eq!(p.ctx.pe_fd, -1);
}
