//! The processes and threads of the machine: which of them the rules are for,
//! and what has to be done to put them on their CPUs.

use vstd::hash_set::StringHashSet;
use vstd::prelude::*;

use crate::bytes;
use crate::bytes::ByteOrder;
use crate::config;
use crate::config::{fnmatch, Rule};
use crate::cpuset;
use crate::cpuset::CpuSet;
use crate::document;
use crate::numeral;
use crate::text;

verus! {

/// The lowest number of a process that can belong to a user.
pub const MIN_USER_PID: i32 = 1000;

/// The lowest number of a user that an application runs as.
pub const MIN_APP_UID: u64 = 10000;

/// Whether the pattern `pat` is for the process `name`: it matches it, or the process is one of
/// the parts of the package `pat`, whose names follow that of the package after a colon.
pub open spec fn pkg_pattern(pat: Seq<char>, name: Seq<char>) -> bool {
    ||| config::pattern_matches(pat, name)
    ||| name.len() > pat.len() && name[pat.len() as int] == ':' && pat.is_prefix_of(name)
}

/// Whether the pattern `pat` is for the process `name`.
pub fn pkg_matches(pat: &str, name: &str) -> (r: bool)
    ensures
        r == pkg_pattern(pat@, name@),
{
    if fnmatch(pat, name) {
        return true;
    }
    let p: Vec<char> = text::chars_of(pat);
    let n: Vec<char> = text::chars_of(name);
    n.len() > p.len() && n[p.len()] == ':' && text::starts_with(name, pat)
}

/// The rule `rule` is for the thread `comm` of the process `pkg`.
pub open spec fn rule_applies(rule: config::RuleView, pkg: Seq<char>, comm: Seq<char>) -> bool {
    pkg_pattern(rule.pkg, pkg) && (rule.thread.len() == 0 || config::pattern_matches(
        rule.thread,
        comm,
    ))
}

/// The rank of a rule among those for one thread: that of a rule for a whole package is fixed.
pub open spec fn rule_rank(rule: config::RuleView) -> int {
    if rule.thread.len() == 0 {
        200
    } else {
        rule.prio
    }
}

/// Rule `i` is the one that counts for the thread `comm` of the process `pkg`: of those that are
/// for it and whose rank is not negative it has the highest rank, and it is the first of that
/// rank.
pub open spec fn rule_counts(
    rules: Seq<config::RuleView>,
    pkg: Seq<char>,
    comm: Seq<char>,
    i: int,
) -> bool {
    &&& 0 <= i < rules.len()
    &&& rule_applies(rules[i], pkg, comm)
    &&& rule_rank(rules[i]) >= 0
    &&& forall|j: int|
        0 <= j < rules.len() && rule_applies(#[trigger] rules[j], pkg, comm) ==> rule_rank(rules[j])
            < rule_rank(rules[i]) || (rule_rank(rules[j]) == rule_rank(rules[i]) && i <= j)
}

/// The CPUs for the thread `comm` of the process `pkg`: those of the rule that counts, none where
/// no rule does.
pub open spec fn placement(
    rules: Seq<config::RuleView>,
    pkg: Seq<char>,
    comm: Seq<char>,
) -> u64 {
    if exists|i: int| rule_counts(rules, pkg, comm, i) {
        cpuset::list_mask(rules[choose|i: int| rule_counts(rules, pkg, comm, i)].cpus)
    } else {
        0
    }
}

/// Only one rule counts.
pub proof fn lemma_rule_counts_once(
    rules: Seq<config::RuleView>,
    pkg: Seq<char>,
    comm: Seq<char>,
    i: int,
    j: int,
)
    requires
        rule_counts(rules, pkg, comm, i),
        rule_counts(rules, pkg, comm, j),
    ensures
        i == j,
{
    assert(rule_applies(rules[i], pkg, comm));
    assert(rule_applies(rules[j], pkg, comm));
}

/// The rule that counts for the thread `comm` of the process `pkg`.
fn best_rule(rules: &[Rule], pkg: &str, comm: &str) -> (r: Option<usize>)
    ensures
        match r {
            Some(i) => rule_counts(config::rule_views(rules@), pkg@, comm@, i as int),
            None => forall|i: int| !rule_counts(config::rule_views(rules@), pkg@, comm@, i),
        },
{
    let ghost all = config::rule_views(rules@);
    let mut best: Option<usize> = None;
    let mut rank: i32 = -1;
    let mut i: usize = 0;
    while i < rules.len()
        invariant
            all == config::rule_views(rules@),
            i <= rules@.len(),
            match best {
                Some(b) => {
                    &&& b < i
                    &&& rule_applies(all[b as int], pkg@, comm@)
                    &&& rank == rule_rank(all[b as int])
                    &&& rank >= 0
                    &&& forall|j: int|
                        0 <= j < i && rule_applies(#[trigger] all[j], pkg@, comm@) ==> rule_rank(
                            all[j],
                        ) < rank || (rule_rank(all[j]) == rank && b <= j)
                },
                None => rank == -1 && forall|j: int|
                    0 <= j < i && rule_applies(#[trigger] all[j], pkg@, comm@) ==> rule_rank(all[j])
                        < 0,
            },
        decreases rules@.len() - i,
    {
        assert(all[i as int] == rules@[i as int]@);
        if pkg_matches(rules[i].pkg.as_str(), pkg) {
            if rules[i].thread.as_str().is_empty() {
                if 200 > rank {
                    best = Some(i);
                    rank = 200;
                }
            } else if fnmatch(rules[i].thread.as_str(), comm) && rules[i].prio > rank {
                best = Some(i);
                rank = rules[i].prio;
            }
        }
        i += 1;
    }
    best
}

/// The CPUs for the thread `comm` of the process `pkg`.
pub fn place(rules: &[Rule], pkg: &str, comm: &str) -> (r: CpuSet)
    ensures
        r.mask == placement(config::rule_views(rules@), pkg@, comm@),
{
    let ghost all = config::rule_views(rules@);
    match best_rule(rules, pkg, comm) {
        Some(i) => {
            proof {
                let k = choose|k: int| rule_counts(all, pkg@, comm@, k);
                lemma_rule_counts_once(all, pkg@, comm@, i as int, k);
                assert(all[i as int] == rules@[i as int]@);
            }
            CpuSet::from_range(rules[i].cpus.as_str())
        },
        None => CpuSet::new(),
    }
}

/// A thread as its directory shows it: the name of the directory, and the text of its file
/// `comm` where it could be read.
pub struct Task {
    pub name: String,
    pub comm: Option<String>,
}

/// The text of an optional string.
pub open spec fn opt_view(s: Option<String>) -> Option<Seq<char>> {
    match s {
        Some(t) => Some(t@),
        None => None,
    }
}

/// The text of an optional string slice.
pub open spec fn opt_str(s: Option<&str>) -> Option<Seq<char>> {
    match s {
        Some(t) => Some(t@),
        None => None,
    }
}

/// The number of the thread with the directory `name`; 0 where the name is no number.
pub open spec fn task_tid(name: Seq<char>) -> int {
    match numeral::i32_value(name) {
        Some(n) => n,
        None => 0,
    }
}

/// The name of a thread whose file `comm` has the text `comm`; empty where it has none.
pub open spec fn task_comm(comm: Option<Seq<char>>) -> Seq<char> {
    match comm {
        Some(s) => text::trimmed(s),
        None => Seq::empty(),
    }
}

impl Task {
    /// The number of the thread.
    pub open spec fn tid(&self) -> int {
        task_tid(self.name@)
    }

    /// The name of the thread.
    pub open spec fn label(&self) -> Seq<char> {
        task_comm(opt_view(self.comm))
    }

    /// The number and the name of the thread.
    fn read(&self) -> (r: (i32, String))
        ensures
            r.0 == self.tid(),
            r.1@ == self.label(),
    {
        let tid: i32 = match numeral::parse_i32(self.name.as_str()) {
            Some(n) => n,
            None => 0,
        };
        let comm: String = match &self.comm {
            Some(s) => text::trim(s.as_str()),
            None => String::new(),
        };
        (tid, comm)
    }
}

/// The name of the process whose file `cmdline` has the text `text`: what stands before the first
/// NUL, where that is not empty.
pub open spec fn cmdline_pkg(text: Option<Seq<char>>) -> Option<Seq<char>> {
    match text {
        Some(s) => if text::head_piece(s, '\0').len() > 0 {
            Some(text::head_piece(s, '\0'))
        } else {
            None
        },
        None => None,
    }
}

/// The name of a process, from the text of its file `cmdline` where it could be read.
pub fn read_cmdline(text: Option<&str>) -> (r: Option<String>)
    ensures
        opt_view(r) == cmdline_pkg(opt_str(text)),
{
    match text {
        Some(s) => {
            let pkg: String = text::head(s, '\0');
            if pkg.as_str().is_empty() {
                None
            } else {
                Some(pkg)
            }
        },
        None => None,
    }
}

/// The names of directories that are numbers of threads, as numbers.
pub open spec fn tids_among(names: Seq<Seq<char>>) -> Seq<int>
    decreases names.len(),
{
    if names.len() == 0 {
        Seq::empty()
    } else {
        match numeral::i32_value(names.last()) {
            Some(n) => tids_among(names.drop_last()).push(n),
            None => tids_among(names.drop_last()),
        }
    }
}

/// The numbers of the threads of a process, from the names in its directory `task` where it could
/// be read. A name that is no number is left out.
pub fn task_tids(names: Option<&[String]>) -> (r: Option<Vec<i32>>)
    ensures
        match names {
            Some(v) => r matches Some(tids) && tids@.map_values(|t: i32| t as int) == tids_among(
                text::views(v@),
            ),
            None => r is None,
        },
{
    match names {
        Some(v) => {
            let ghost all = text::views(v@);
            let mut tids: Vec<i32> = Vec::new();
            let mut i: usize = 0;
            assert(all.take(0) =~= Seq::empty());
            assert(tids@.map_values(|t: i32| t as int) =~= Seq::empty());
            while i < v.len()
                invariant
                    i <= v@.len(),
                    all == text::views(v@),
                    tids@.map_values(|t: i32| t as int) == tids_among(all.take(i as int)),
                decreases v@.len() - i,
            {
                assert(all.take(i + 1).drop_last() =~= all.take(i as int));
                assert(all.take(i + 1).last() == v@[i as int]@);
                let ghost had = tids@;
                if let Some(n) = numeral::parse_i32(v[i].as_str()) {
                    tids.push(n);
                    assert(tids@.map_values(|t: i32| t as int) =~= had.map_values(
                        |t: i32| t as int,
                    ).push(n as int));
                }
                i += 1;
            }
            assert(all.take(i as int) =~= all);
            Some(tids)
        },
        None => None,
    }
}

/// The name of a thread, from the text of its file `comm` where it could be read; `None` where
/// there is nothing but white space.
pub fn tid_comm(text: Option<&str>) -> (r: Option<String>)
    ensures
        opt_view(r) == (match opt_str(text) {
            Some(s) => if text::trimmed(s).len() > 0 {
                Some(text::trimmed(s))
            } else {
                None
            },
            None => None,
        }),
{
    match text {
        Some(s) => {
            let comm: String = text::trim(s);
            if comm.as_str().is_empty() {
                None
            } else {
                Some(comm)
            }
        },
        None => None,
    }
}

/// One of the patterns `wild` matches `pkg`.
pub open spec fn wild_matches(wild: Seq<Seq<char>>, pkg: Seq<char>) -> bool {
    exists|i: int| 0 <= i < wild.len() && config::pattern_matches(#[trigger] wild[i], pkg)
}

/// The configuration with the packages `set` and the patterns `wild` is about the process `pkg`:
/// it names it or the package that it is a part of, or has a pattern for it.
pub open spec fn configured(
    pkg: Seq<char>,
    set: Set<Seq<char>>,
    wild: Seq<Seq<char>>,
) -> bool {
    ||| set.contains(pkg)
    ||| set.contains(text::head_piece(pkg, ':'))
    ||| exists|i: int| 0 <= i < wild.len() && pkg_pattern(#[trigger] wild[i], pkg)
}

/// Whether one of the patterns `wild` matches `pkg`.
fn any_wild(wild: &[String], pkg: &str) -> (r: bool)
    ensures
        r == wild_matches(text::views(wild@), pkg@),
{
    let ghost all = text::views(wild@);
    let mut i: usize = 0;
    while i < wild.len()
        invariant
            i <= wild@.len(),
            all == text::views(wild@),
            forall|j: int| 0 <= j < i ==> !config::pattern_matches(#[trigger] all[j], pkg@),
        decreases wild@.len() - i,
    {
        assert(all[i as int] == wild@[i as int]@);
        if fnmatch(wild[i].as_str(), pkg) {
            return true;
        }
        i += 1;
    }
    false
}

/// Whether the configuration is about the process `pkg`.
fn is_configured(pkg: &str, set: &StringHashSet, wild: &[String]) -> (r: bool)
    ensures
        r == configured(pkg@, set@, text::views(wild@)),
{
    if set.contains(pkg) {
        return true;
    }
    let base: String = text::head(pkg, ':');
    if set.contains(base.as_str()) {
        return true;
    }
    let ghost all = text::views(wild@);
    let mut i: usize = 0;
    while i < wild.len()
        invariant
            i <= wild@.len(),
            all == text::views(wild@),
            forall|j: int| 0 <= j < i ==> !pkg_pattern(#[trigger] all[j], pkg@),
        decreases wild@.len() - i,
    {
        assert(all[i as int] == wild@[i as int]@);
        if pkg_matches(wild[i].as_str(), pkg) {
            return true;
        }
        i += 1;
    }
    false
}

/// The name of the process `pid`, where the configuration is about it.
pub open spec fn target(
    pid: int,
    cmdline: Option<Seq<char>>,
    set: Set<Seq<char>>,
    wild: Seq<Seq<char>>,
) -> Option<Seq<char>> {
    match cmdline_pkg(cmdline) {
        Some(pkg) => if pid >= MIN_USER_PID && configured(pkg, set, wild) {
            Some(pkg)
        } else {
            None
        },
        None => None,
    }
}

/// The name of the process `pid`, from the text of its file `cmdline` where it could be read, if
/// the process belongs to a user and the configuration is about it.
pub fn target_package(pid: i32, cmdline: Option<&str>, set: &StringHashSet, wild: &[String]) -> (r:
    Option<String>)
    ensures
        opt_view(r) == target(pid as int, opt_str(cmdline), set@, text::views(wild@)),
{
    if pid < MIN_USER_PID {
        return None;
    }
    match read_cmdline(cmdline) {
        Some(pkg) => {
            if is_configured(pkg.as_str(), set, wild) {
                Some(pkg)
            } else {
                None
            }
        },
        None => None,
    }
}

/// A thread and the CPUs for it.
pub struct ThreadView {
    pub tid: int,
    pub comm: Seq<char>,
    pub mask: u64,
}

/// A process, its threads and the CPUs for them.
pub struct ProcessView {
    pub pid: int,
    pub pkg: Seq<char>,
    pub threads: Seq<ThreadView>,
}

/// What the threads `th` say.
pub open spec fn thread_views(th: Seq<(i32, String, CpuSet)>) -> Seq<ThreadView> {
    th.map_values(
        |t: (i32, String, CpuSet)|
            ThreadView { tid: t.0 as int, comm: t.1@, mask: t.2.mask },
    )
}

/// What the process `p` says.
pub open spec fn process_view(p: (i32, String, Vec<(i32, String, CpuSet)>)) -> ProcessView {
    ProcessView { pid: p.0 as int, pkg: p.1@, threads: thread_views(p.2@) }
}

/// What the processes `v` say.
pub open spec fn process_views(v: Seq<(i32, String, Vec<(i32, String, CpuSet)>)>) -> Seq<
    ProcessView,
> {
    v.map_values(|p: (i32, String, Vec<(i32, String, CpuSet)>)| process_view(p))
}

/// The threads `tasks` of the process `pkg`, each with the CPUs that `rules` say for it.
pub open spec fn placed_threads(
    tasks: Seq<Task>,
    rules: Seq<config::RuleView>,
    pkg: Seq<char>,
) -> Seq<ThreadView> {
    tasks.map_values(
        |t: Task|
            ThreadView { tid: t.tid(), comm: t.label(), mask: placement(rules, pkg, t.label()) },
    )
}

/// The process `pid` with its threads and the CPUs for them; `None` where it does not belong to a
/// user, the configuration is not about it, or no threads are seen.
pub open spec fn seen_process(
    pid: int,
    cmdline: Option<Seq<char>>,
    tasks: Option<Seq<Task>>,
    rules: Seq<config::RuleView>,
    set: Set<Seq<char>>,
    wild: Seq<Seq<char>>,
) -> Option<ProcessView> {
    match (target(pid, cmdline, set, wild), tasks) {
        (Some(pkg), Some(v)) => if v.len() > 0 {
            Some(ProcessView { pid, pkg, threads: placed_threads(v, rules, pkg) })
        } else {
            None
        },
        _ => None,
    }
}

/// The elements of an optional slice.
pub open spec fn opt_tasks(tasks: Option<&[Task]>) -> Option<Seq<Task>> {
    match tasks {
        Some(v) => Some(v@),
        None => None,
    }
}

/// The process `pid` with its threads and the CPUs for them, from the text of its file `cmdline`
/// and from its directory `task`, where they could be read; `None` where it does not belong to a
/// user, the configuration is not about it, or no threads are seen.
pub fn scan_one_pid(
    pid: i32,
    cmdline: Option<&str>,
    tasks: Option<&[Task]>,
    rules: &[Rule],
    set: &StringHashSet,
    wild: &[String],
) -> (r: Option<(i32, String, Vec<(i32, String, CpuSet)>)>)
    ensures
        match seen_process(
            pid as int,
            opt_str(cmdline),
            opt_tasks(tasks),
            config::rule_views(rules@),
            set@,
            text::views(wild@),
        ) {
            Some(p) => r matches Some(e) && process_view(e) == p,
            None => r is None,
        },
{
    let pkg: String = match target_package(pid, cmdline, set, wild) {
        Some(p) => p,
        None => {
            return None;
        },
    };
    let ghost all = config::rule_views(rules@);
    let mut th: Vec<(i32, String, CpuSet)> = Vec::new();
    match tasks {
        Some(v) => {
            let mut i: usize = 0;
            assert(thread_views(th@) =~= placed_threads(v@.take(0), all, pkg@));
            while i < v.len()
                invariant
                    i <= v@.len(),
                    all == config::rule_views(rules@),
                    thread_views(th@) == placed_threads(v@.take(i as int), all, pkg@),
                    th@.len() == i,
                decreases v@.len() - i,
            {
                let (tid, comm) = v[i].read();
                let cpus: CpuSet = place(rules, pkg.as_str(), comm.as_str());
                let ghost had = th@;
                let ghost last = ThreadView { tid: tid as int, comm: comm@, mask: cpus.mask };
                th.push((tid, comm, cpus));
                assert(thread_views(th@) =~= thread_views(had).push(last));
                assert(placed_threads(v@.take(i + 1), all, pkg@) =~= placed_threads(
                    v@.take(i as int),
                    all,
                    pkg@,
                ).push(last));
                i += 1;
            }
            assert(v@.take(i as int) =~= v@);
        },
        None => {},
    }
    if th.len() == 0 {
        return None;
    }
    Some((pid, pkg, th))
}

/// A process as its directory shows it: the text of its file `cmdline` and its directory `task`,
/// where they could be read.
pub struct Snapshot {
    pub pid: i32,
    pub cmdline: Option<String>,
    pub tasks: Option<Vec<Task>>,
}

/// The elements of an optional vector.
pub open spec fn opt_vec(tasks: Option<Vec<Task>>) -> Option<Seq<Task>> {
    match tasks {
        Some(v) => Some(v@),
        None => None,
    }
}

/// Those of the processes `found` that the configuration is about, with their threads and the
/// CPUs for them.
pub open spec fn seen_processes(
    found: Seq<Snapshot>,
    rules: Seq<config::RuleView>,
    set: Set<Seq<char>>,
    wild: Seq<Seq<char>>,
) -> Seq<ProcessView>
    decreases found.len(),
{
    if found.len() == 0 {
        Seq::empty()
    } else {
        let before = seen_processes(found.drop_last(), rules, set, wild);
        let s = found.last();
        match seen_process(
            s.pid as int,
            opt_view(s.cmdline),
            opt_vec(s.tasks),
            rules,
            set,
            wild,
        ) {
            Some(p) => before.push(p),
            None => before,
        }
    }
}

/// The processes that the configuration is about, from the processes `found` and the status with
/// which the list of processes ended. A negative status says that the list could not be read to
/// its end: then there are none.
pub fn scan(
    status: i64,
    found: &[Snapshot],
    rules: &[Rule],
    set: &StringHashSet,
    wild: &[String],
) -> (r: Vec<(i32, String, Vec<(i32, String, CpuSet)>)>)
    ensures
        process_views(r@) == (if status < 0 {
            Seq::empty()
        } else {
            seen_processes(found@, config::rule_views(rules@), set@, text::views(wild@))
        }),
{
    let mut r: Vec<(i32, String, Vec<(i32, String, CpuSet)>)> = Vec::new();
    assert(process_views(r@) =~= Seq::empty());
    if status < 0 {
        return r;
    }
    let ghost all = config::rule_views(rules@);
    let ghost patterns = text::views(wild@);
    let mut i: usize = 0;
    assert(found@.take(0) =~= Seq::empty());
    while i < found.len()
        invariant
            i <= found@.len(),
            all == config::rule_views(rules@),
            patterns == text::views(wild@),
            process_views(r@) == seen_processes(found@.take(i as int), all, set@, patterns),
        decreases found@.len() - i,
    {
        assert(found@.take(i + 1).drop_last() =~= found@.take(i as int));
        let one: &Snapshot = &found[i];
        let cmdline: Option<&str> = match &one.cmdline {
            Some(s) => Some(s.as_str()),
            None => None,
        };
        let tasks: Option<&[Task]> = match &one.tasks {
            Some(v) => Some(v.as_slice()),
            None => None,
        };
        let ghost had = r@;
        if let Some(p) = scan_one_pid(one.pid, cmdline, tasks, rules, set, wild) {
            let ghost view = process_view(p);
            r.push(p);
            assert(process_views(r@) =~= process_views(had).push(view));
        }
        i += 1;
    }
    assert(found@.take(i as int) =~= found@);
    r
}

/// The first of `lines` that tells the users of a process.
pub open spec fn uid_line(lines: Seq<Seq<char>>) -> Option<Seq<char>>
    decreases lines.len(),
{
    if lines.len() == 0 {
        None
    } else if "Uid:"@.is_prefix_of(lines[0]) {
        Some(lines[0])
    } else {
        uid_line(lines.drop_first())
    }
}

/// The process whose file `status` has the text `status` runs as the user of an application: the
/// number after `Uid:`, on the first line that starts so, is at least `MIN_APP_UID`.
pub open spec fn runs_as_app(status: Seq<char>) -> bool {
    match uid_line(text::pieces(status, '\n')) {
        Some(line) => text::words(line).len() > 1 && match numeral::unsigned_value(
            text::words(line)[1],
            u32::MAX as int,
        ) {
            Some(uid) => uid >= MIN_APP_UID,
            None => false,
        },
        None => false,
    }
}

/// Whether a process runs as the user of an application, from the text of its file `status`.
pub fn is_app_process(status: &str) -> (r: bool)
    ensures
        r == runs_as_app(status@),
{
    let lines: Vec<String> = text::split(status, '\n');
    let ghost all = text::views(lines@);
    let mut i: usize = 0;
    assert(all.skip(0) =~= all);
    while i < lines.len()
        invariant
            i <= lines@.len(),
            all == text::views(lines@),
            all == text::pieces(status@, '\n'),
            uid_line(all) == uid_line(all.skip(i as int)),
        decreases lines@.len() - i,
    {
        assert(all.skip(i as int)[0] == lines@[i as int]@);
        assert(all.skip(i as int).drop_first() =~= all.skip(i + 1));
        if text::starts_with(lines[i].as_str(), "Uid:") {
            return match text::second_word(lines[i].as_str()) {
                Some(word) => match numeral::parse_unsigned(word.as_str(), 0xffff_ffff) {
                    Some(uid) => uid >= MIN_APP_UID,
                    None => false,
                },
                None => false,
            };
        }
        i += 1;
    }
    false
}

/// A process as its directory shows it: the name of the directory, the text of its files
/// `cmdline` and `status` and its directory `task`, where they could be read.
pub struct ProcDir {
    pub name: String,
    pub cmdline: Option<String>,
    pub status: Option<String>,
    pub tasks: Option<Vec<Task>>,
}

/// A thread and its name.
pub struct NameView {
    pub tid: int,
    pub comm: Seq<char>,
}

/// A process and its threads.
pub struct UnknownView {
    pub pid: int,
    pub pkg: Seq<char>,
    pub threads: Seq<NameView>,
}

/// What the threads `th` say.
pub open spec fn name_views(th: Seq<(i32, String)>) -> Seq<NameView> {
    th.map_values(|t: (i32, String)| NameView { tid: t.0 as int, comm: t.1@ })
}

/// What the process `p` says.
pub open spec fn unknown_view(p: (i32, String, Vec<(i32, String)>)) -> UnknownView {
    UnknownView { pid: p.0 as int, pkg: p.1@, threads: name_views(p.2@) }
}

/// What the processes `v` say.
pub open spec fn unknown_views(v: Seq<(i32, String, Vec<(i32, String)>)>) -> Seq<UnknownView> {
    v.map_values(|p: (i32, String, Vec<(i32, String)>)| unknown_view(p))
}

/// The threads `tasks` with their names.
pub open spec fn named_threads(tasks: Seq<Task>) -> Seq<NameView> {
    tasks.map_values(|t: Task| NameView { tid: t.tid(), comm: t.label() })
}

/// `pkg` looks like the name of an application, and the configuration says nothing of it.
pub open spec fn unconfigured(pkg: Seq<char>, set: Set<Seq<char>>, wild: Seq<Seq<char>>) -> bool {
    !pkg.contains('/') && pkg.contains('.') && !set.contains(pkg) && !wild_matches(wild, pkg)
}

/// The process with the directory `d` and its threads, where it is an application of which the
/// configuration says nothing.
pub open spec fn unknown_process(
    d: ProcDir,
    set: Set<Seq<char>>,
    wild: Seq<Seq<char>>,
) -> Option<UnknownView> {
    match (
        numeral::i32_value(d.name@),
        cmdline_pkg(opt_view(d.cmdline)),
        opt_view(d.status),
        opt_vec(d.tasks),
    ) {
        (Some(pid), Some(pkg), Some(status), Some(v)) => if pid >= MIN_USER_PID && unconfigured(
            pkg,
            set,
            wild,
        ) && runs_as_app(status) && v.len() > 0 {
            Some(UnknownView { pid, pkg, threads: named_threads(v) })
        } else {
            None
        },
        _ => None,
    }
}

/// Those of the processes `found` that are applications of which the configuration says nothing.
pub open spec fn unknown_processes(
    found: Seq<ProcDir>,
    set: Set<Seq<char>>,
    wild: Seq<Seq<char>>,
) -> Seq<UnknownView>
    decreases found.len(),
{
    if found.len() == 0 {
        Seq::empty()
    } else {
        let before = unknown_processes(found.drop_last(), set, wild);
        match unknown_process(found.last(), set, wild) {
            Some(p) => before.push(p),
            None => before,
        }
    }
}

/// The numbers and names of the threads `tasks`.
fn read_names(tasks: &Vec<Task>) -> (r: Vec<(i32, String)>)
    ensures
        name_views(r@) == named_threads(tasks@),
{
    let mut th: Vec<(i32, String)> = Vec::new();
    let mut i: usize = 0;
    assert(name_views(th@) =~= named_threads(tasks@.take(0)));
    while i < tasks.len()
        invariant
            i <= tasks@.len(),
            name_views(th@) == named_threads(tasks@.take(i as int)),
        decreases tasks@.len() - i,
    {
        let one: (i32, String) = tasks[i].read();
        let ghost had = th@;
        let ghost last = NameView { tid: one.0 as int, comm: one.1@ };
        th.push(one);
        assert(name_views(th@) =~= name_views(had).push(last));
        assert(named_threads(tasks@.take(i + 1)) =~= named_threads(tasks@.take(i as int)).push(
            last,
        ));
        i += 1;
    }
    assert(tasks@.take(i as int) =~= tasks@);
    th
}

/// The process with the directory `d` and its threads, where it is an application of which the
/// configuration says nothing; `None` where it is not, or where no threads are seen.
pub fn unknown_one(d: &ProcDir, set: &StringHashSet, wild: &[String]) -> (r: Option<
    (i32, String, Vec<(i32, String)>),
>)
    ensures
        match unknown_process(*d, set@, text::views(wild@)) {
            Some(p) => r matches Some(e) && unknown_view(e) == p,
            None => r is None,
        },
{
    let pid: i32 = match numeral::parse_i32(d.name.as_str()) {
        Some(n) => n,
        None => {
            return None;
        },
    };
    if pid < MIN_USER_PID {
        return None;
    }
    let cmdline: Option<&str> = match &d.cmdline {
        Some(s) => Some(s.as_str()),
        None => None,
    };
    let pkg: String = match read_cmdline(cmdline) {
        Some(p) => p,
        None => {
            return None;
        },
    };
    if text::contains_char(pkg.as_str(), '/') || !text::contains_char(pkg.as_str(), '.') {
        return None;
    }
    if set.contains(pkg.as_str()) || any_wild(wild, pkg.as_str()) {
        return None;
    }
    match &d.status {
        Some(s) => {
            if !is_app_process(s.as_str()) {
                return None;
            }
        },
        None => {
            return None;
        },
    }
    match &d.tasks {
        Some(v) => {
            let th: Vec<(i32, String)> = read_names(v);
            assert(name_views(th@).len() == v@.len());
            if th.len() == 0 {
                None
            } else {
                Some((pid, pkg, th))
            }
        },
        None => None,
    }
}

/// The applications of which the configuration says nothing, among the processes `found`; none
/// where the list of processes could not be read.
pub fn scan_unknown(found: Option<&[ProcDir]>, set: &StringHashSet, wild: &[String]) -> (r: Vec<
    (i32, String, Vec<(i32, String)>),
>)
    ensures
        unknown_views(r@) == (match found {
            Some(v) => unknown_processes(v@, set@, text::views(wild@)),
            None => Seq::empty(),
        }),
{
    let mut r: Vec<(i32, String, Vec<(i32, String)>)> = Vec::new();
    assert(unknown_views(r@) =~= Seq::empty());
    let v: &[ProcDir] = match found {
        Some(v) => v,
        None => {
            return r;
        },
    };
    let ghost patterns = text::views(wild@);
    let mut i: usize = 0;
    assert(v@.take(0) =~= Seq::empty());
    while i < v.len()
        invariant
            i <= v@.len(),
            patterns == text::views(wild@),
            unknown_views(r@) == unknown_processes(v@.take(i as int), set@, patterns),
        decreases v@.len() - i,
    {
        assert(v@.take(i + 1).drop_last() =~= v@.take(i as int));
        let ghost had = r@;
        if let Some(p) = unknown_one(&v[i], set, wild) {
            let ghost view = unknown_view(p);
            r.push(p);
            assert(unknown_views(r@) =~= unknown_views(had).push(view));
        }
        i += 1;
    }
    assert(v@.take(i as int) =~= v@);
    r
}

/// The length of the directory record that stands in `buf` at `off`.
pub open spec fn record_len(buf: Seq<u8>, off: int, order: ByteOrder) -> int {
    bytes::number_at(buf, off + 16, 2, order) as int
}

/// The directory record that stands in `buf` at `off` is no entry: it is too short, or has no
/// inode.
pub open spec fn record_void(buf: Seq<u8>, off: int, order: ByteOrder) -> bool {
    record_len(buf, off, order) < 19 || bytes::number_at(buf, off, 8, order) == 0
}

/// The records from `off` on can be walked up to `n`: each of them is there and has a length, and
/// an entry has room for a name.
pub open spec fn walkable(buf: Seq<u8>, n: int, off: int, order: ByteOrder) -> bool
    decreases
            (if off < n {
                n - off
            } else {
                0
            }),
{
    let len = record_len(buf, off, order);
    off >= n || {
        &&& off + 18 <= buf.len()
        &&& len > 0
        &&& record_void(buf, off, order) || (len >= 20 && off + len <= buf.len())
        &&& walkable(buf, n, off + len, order)
    }
}

/// The position of the first zero in `b`; the length of `b` where there is none.
pub open spec fn first_zero(b: Seq<u8>) -> int
    decreases b.len(),
{
    if b.len() == 0 || b[0] == 0 {
        0
    } else {
        1 + first_zero(b.drop_first())
    }
}

/// The name in the directory record that stands in `buf` at `off`: what stands before the first
/// zero, or before the last byte where there is none.
pub open spec fn record_name(buf: Seq<u8>, off: int, order: ByteOrder) -> Seq<u8> {
    let room = buf.subrange(off + 19, off + record_len(buf, off, order));
    if first_zero(room) < room.len() {
        room.take(first_zero(room))
    } else {
        room.drop_last()
    }
}

/// The bytes `b`, each as a character.
pub open spec fn byte_chars(b: Seq<u8>) -> Seq<char> {
    b.map_values(|x: u8| x as char)
}

/// The processes of users among the directory records from `off` up to `n`.
pub open spec fn listed(buf: Seq<u8>, n: int, off: int, order: ByteOrder) -> Seq<int>
    decreases
            (if off < n {
                n - off
            } else {
                0
            }),
{
    let len = record_len(buf, off, order);
    if off >= n || len <= 0 {
        Seq::empty()
    } else if record_void(buf, off, order) {
        listed(buf, n, off + len, order)
    } else {
        match numeral::i32_value(byte_chars(record_name(buf, off, order))) {
            Some(pid) => if pid >= MIN_USER_PID {
                seq![pid] + listed(buf, n, off + len, order)
            } else {
                listed(buf, n, off + len, order)
            },
            None => listed(buf, n, off + len, order),
        }
    }
}

/// What `first_zero` says of the positions.
proof fn lemma_first_zero(b: Seq<u8>, at: int)
    requires
        0 <= at <= b.len(),
        forall|j: int| 0 <= j < at ==> b[j] != 0,
        at < b.len() ==> b[at] == 0,
    ensures
        first_zero(b) == at,
    decreases b.len(),
{
    if at > 0 {
        assert forall|j: int| 0 <= j < at - 1 implies b.drop_first()[j] != 0 by {
            assert(b.drop_first()[j] == b[j + 1]);
        }
        lemma_first_zero(b.drop_first(), at - 1);
    }
}

/// Whether the directory records in `buf` up to `n` can be walked.
pub fn dirents_valid(buf: &[u8], n: usize, order: ByteOrder) -> (r: bool)
    requires
        n <= buf@.len(),
    ensures
        r == walkable(buf@, n as int, 0, order),
{
    let total: usize = buf.len();
    let mut off: usize = 0;
    while off < n
        invariant
            total == buf@.len(),
            n <= total,
            off <= total,
            walkable(buf@, n as int, 0, order) == walkable(buf@, n as int, off as int, order),
        decreases total - off,
    {
        if total - off < 18 {
            return false;
        }
        let len: usize = bytes::read_u16(buf, off + 16, order) as usize;
        let ino: u64 = bytes::read_number(buf, off, 8, order);
        if len == 0 {
            return false;
        }
        if !(len < 19 || ino == 0) && (len < 20 || total - off < len) {
            return false;
        }
        if total - off < len {
            proof {
                reveal_with_fuel(walkable, 2);
            }
            return true;
        }
        off += len;
    }
    true
}

/// The processes of users that the directory records in `buf` up to `n` name.
pub fn listed_pids(buf: &[u8], n: usize, order: ByteOrder) -> (r: Vec<i32>)
    requires
        n <= buf@.len(),
        walkable(buf@, n as int, 0, order),
    ensures
        r@.map_values(|p: i32| p as int) == listed(buf@, n as int, 0, order),
{
    let total: usize = buf.len();
    let mut r: Vec<i32> = Vec::new();
    let mut off: usize = 0;
    let ghost goal = listed(buf@, n as int, 0, order);
    assert(r@.map_values(|p: i32| p as int) + goal =~= goal);
    while off < n
        invariant
            total == buf@.len(),
            n <= total,
            off <= total,
            walkable(buf@, n as int, off as int, order),
            r@.map_values(|p: i32| p as int) + listed(buf@, n as int, off as int, order) == goal,
            goal == listed(buf@, n as int, 0, order),
        decreases total - off,
    {
        let len: usize = bytes::read_u16(buf, off + 16, order) as usize;
        let ino: u64 = bytes::read_number(buf, off, 8, order);
        let ghost rest = listed(buf@, n as int, off + len, order);
        let ghost had = r@;
        if len < 19 || ino == 0 {
            if total - off < len {
                proof {
                    reveal_with_fuel(listed, 2);
                    assert(rest =~= Seq::empty());
                    assert(r@.map_values(|p: i32| p as int) =~= goal);
                }
                return r;
            }
            off += len;
            continue;
        }
        let name: Vec<char> = name_chars(buf, off, len, order);
        if let Some(pid) = numeral::parse_i32_chars(&name) {
            if pid >= MIN_USER_PID {
                r.push(pid);
                assert(r@.map_values(|p: i32| p as int) =~= had.map_values(|p: i32| p as int).push(
                    pid as int,
                ));
                assert(r@.map_values(|p: i32| p as int) + rest =~= had.map_values(
                    |p: i32| p as int,
                ) + (seq![pid as int] + rest));
            }
        }
        off += len;
    }
    assert(r@.map_values(|p: i32| p as int) =~= goal);
    r
}

/// The name in the directory record of `len` bytes that stands in `buf` at `off`.
fn name_chars(buf: &[u8], off: usize, len: usize, order: ByteOrder) -> (r: Vec<char>)
    requires
        20 <= len,
        off + len <= buf@.len(),
        len == record_len(buf@, off as int, order),
    ensures
        r@ == byte_chars(record_name(buf@, off as int, order)),
{
    let total: usize = buf.len();
    let ghost room = buf@.subrange(off + 19, off + len);
    let mut r: Vec<char> = Vec::new();
    let mut i: usize = 0;
    while i < len - 19
        invariant
            total == buf@.len(),
            20 <= len,
            off + len <= total,
            len == record_len(buf@, off as int, order),
            room == buf@.subrange(off + 19, off + len),
            i <= len - 19,
            r@ == byte_chars(room.take(i as int)),
            forall|j: int| 0 <= j < i ==> room[j] != 0,
        decreases len - i,
    {
        let b: u8 = buf[off + 19 + i];
        assert(room[i as int] == b);
        if b == 0 {
            proof {
                lemma_first_zero(room, i as int);
            }
            return r;
        }
        assert(byte_chars(room.take(i + 1)) =~= byte_chars(room.take(i as int)).push(b as char));
        r.push(b as char);
        i += 1;
    }
    proof {
        lemma_first_zero(room, i as int);
    }
    let last: Option<char> = r.pop();
    assert(room.take(i as int) =~= room);
    assert(r@ =~= byte_chars(room.drop_last()));
    r
}

/// Where a rule of a rank that is not negative is for a thread, one counts, and the thread gets its
/// CPUs; where there is none, the thread gets no CPUs, and so is left where it is.
pub proof fn law_placement(rules: Seq<config::RuleView>, pkg: Seq<char>, comm: Seq<char>)
    ensures
        (exists|i: int|
            0 <= i < rules.len() && rule_applies(#[trigger] rules[i], pkg, comm) && rule_rank(
                rules[i],
            ) >= 0) ==> exists|i: int|
            #[trigger] rule_counts(rules, pkg, comm, i) && placement(rules, pkg, comm)
                == cpuset::list_mask(rules[i].cpus),
        (forall|i: int|
            0 <= i < rules.len() ==> !(rule_applies(#[trigger] rules[i], pkg, comm) && rule_rank(
                rules[i],
            ) >= 0)) ==> placement(rules, pkg, comm) == 0,
{
    if exists|i: int|
        0 <= i < rules.len() && rule_applies(#[trigger] rules[i], pkg, comm) && rule_rank(rules[i])
            >= 0 {
        let i = choose|i: int|
            0 <= i < rules.len() && rule_applies(#[trigger] rules[i], pkg, comm) && rule_rank(
                rules[i],
            ) >= 0;
        let best = lemma_some_rule_counts(rules, pkg, comm, rules.len() as int, i);
        let k = choose|k: int| rule_counts(rules, pkg, comm, k);
        lemma_rule_counts_once(rules, pkg, comm, best, k);
    }
}

/// Among the first `n` rules one has the highest rank.
proof fn lemma_some_rule_counts(
    rules: Seq<config::RuleView>,
    pkg: Seq<char>,
    comm: Seq<char>,
    n: int,
    i: int,
) -> (best: int)
    requires
        0 <= i < n <= rules.len(),
        rule_applies(rules[i], pkg, comm),
        rule_rank(rules[i]) >= 0,
    ensures
        rule_counts(rules.take(n), pkg, comm, best),
        n == rules.len() ==> rule_counts(rules, pkg, comm, best),
    decreases n,
{
    let all = rules.take(n);
    let before = rules.take(n - 1);
    assert(n == rules.len() ==> all =~= rules);
    assert forall|j: int| 0 <= j < n - 1 implies #[trigger] all[j] == before[j] by {}
    if exists|j: int|
        0 <= j < n - 1 && rule_applies(#[trigger] rules[j], pkg, comm) && rule_rank(rules[j])
            >= 0 {
        let j = choose|j: int|
            0 <= j < n - 1 && rule_applies(#[trigger] rules[j], pkg, comm) && rule_rank(rules[j])
                >= 0;
        let b = lemma_some_rule_counts(rules, pkg, comm, n - 1, j);
        assert(before[b] == all[b]);
        if rule_applies(all[n - 1], pkg, comm) && rule_rank(all[n - 1]) > rule_rank(all[b]) {
            assert forall|k: int|
                0 <= k < all.len() && rule_applies(#[trigger] all[k], pkg, comm) implies rule_rank(
                all[k],
            ) < rule_rank(all[n - 1]) || (rule_rank(all[k]) == rule_rank(all[n - 1]) && n - 1
                <= k) by {
                if k < n - 1 {
                    assert(all[k] == before[k]);
                }
            }
            n - 1
        } else {
            assert forall|k: int|
                0 <= k < all.len() && rule_applies(#[trigger] all[k], pkg, comm) implies rule_rank(
                all[k],
            ) < rule_rank(all[b]) || (rule_rank(all[k]) == rule_rank(all[b]) && b <= k) by {
                if k < n - 1 {
                    assert(all[k] == before[k]);
                }
            }
            b
        }
    } else {
        assert(i == n - 1);
        assert forall|k: int|
            0 <= k < all.len() && rule_applies(#[trigger] all[k], pkg, comm) implies rule_rank(
            all[k],
        ) < rule_rank(all[n - 1]) || (rule_rank(all[k]) == rule_rank(all[n - 1]) && n - 1 <= k) by {
            if k < n - 1 {
                assert(all[k] == rules[k]);
            }
        }
        n - 1
    }
}

/// The parts of a package, whose names follow that of the package after a colon, are configured
/// with it, and a rule for the package is for them.
pub proof fn law_parts_of_package(
    pkg: Seq<char>,
    part: Seq<char>,
    set: Set<Seq<char>>,
    wild: Seq<Seq<char>>,
)
    requires
        !pkg.contains(':'),
        set.contains(pkg),
    ensures
        configured(pkg, set, wild),
        configured(pkg + seq![':'] + part, set, wild),
        pkg_pattern(pkg, pkg + seq![':'] + part),
{
    let name = pkg + seq![':'] + part;
    assert forall|i: int| 0 <= i < pkg.len() implies name[i] != ':' by {
        assert(name[i] == pkg[i]);
        assert(pkg.contains(pkg[i]));
    }
    text::lemma_first_of_unique(name, ':', pkg.len() as int);
    assert(text::head_piece(name, ':') =~= pkg);
    assert(name[pkg.len() as int] == ':');
    assert(pkg.is_prefix_of(name));
}

/// An application for which rules were kept is known once they are merged: it is not found among
/// the unknown ones again, and the configuration is about it.
pub proof fn law_merged_is_known(
    pkg: Seq<char>,
    v: Seq<document::Tree>,
    set: Set<Seq<char>>,
    wild: Seq<Seq<char>>,
)
    requires
        config::cache::cached_packages(v).contains(pkg),
    ensures
        !unconfigured(pkg, set.union(config::cache::cached_packages(v)), wild),
        configured(pkg, set.union(config::cache::cached_packages(v)), wild),
{
}

/// What is found among the unknown processes is an application of a user, with threads, of which
/// the configuration says nothing.
pub proof fn law_unknown_are_unconfigured(
    found: Seq<ProcDir>,
    set: Set<Seq<char>>,
    wild: Seq<Seq<char>>,
)
    ensures
        forall|i: int|
            0 <= i < unknown_processes(found, set, wild).len() ==> {
                let p = #[trigger] unknown_processes(found, set, wild)[i];
                p.pid >= MIN_USER_PID && unconfigured(p.pkg, set, wild) && p.threads.len() > 0
            },
    decreases found.len(),
{
    if found.len() > 0 {
        let w = found.drop_last();
        law_unknown_are_unconfigured(w, set, wild);
        let before = unknown_processes(w, set, wild);
        let all = unknown_processes(found, set, wild);
        assert forall|i: int| 0 <= i < all.len() implies (#[trigger] all[i]).pid >= MIN_USER_PID
            && unconfigured(all[i].pkg, set, wild) && all[i].threads.len() > 0 by {
            if i < before.len() {
                assert(all[i] == before[i]);
            }
        }
    }
}

/// The process `p` is one that the configuration is about, with threads, each of which has the CPUs
/// that the rules say.
pub open spec fn well_scanned(
    p: ProcessView,
    rules: Seq<config::RuleView>,
    set: Set<Seq<char>>,
    wild: Seq<Seq<char>>,
) -> bool {
    &&& p.pid >= MIN_USER_PID
    &&& configured(p.pkg, set, wild)
    &&& p.threads.len() > 0
    &&& forall|j: int|
        0 <= j < p.threads.len() ==> (#[trigger] p.threads[j]).mask == placement(
            rules,
            p.pkg,
            p.threads[j].comm,
        )
}

/// What is found when the processes are scanned belongs to users, the configuration is about it, and
/// every thread has the CPUs that the rules say.
pub proof fn law_scanned_are_configured(
    found: Seq<Snapshot>,
    rules: Seq<config::RuleView>,
    set: Set<Seq<char>>,
    wild: Seq<Seq<char>>,
)
    ensures
        forall|i: int|
            0 <= i < seen_processes(found, rules, set, wild).len() ==> #[trigger] well_scanned(
                seen_processes(found, rules, set, wild)[i],
                rules,
                set,
                wild,
            ),
    decreases found.len(),
{
    if found.len() > 0 {
        let w = found.drop_last();
        law_scanned_are_configured(w, rules, set, wild);
        let before = seen_processes(w, rules, set, wild);
        let all = seen_processes(found, rules, set, wild);
        assert forall|i: int| 0 <= i < all.len() implies #[trigger] well_scanned(
            all[i],
            rules,
            set,
            wild,
        ) by {
            if i < before.len() {
                assert(all[i] == before[i]);
                assert(well_scanned(before[i], rules, set, wild));
            }
        }
    }
}

} // verus!
