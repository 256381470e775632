//! What the kernel program does at its tracepoints: which threads it keeps track of, and which
//! events it reports.

use vstd::prelude::*;

use crate::bytes;

verus! {

/// A process or thread was forked.
pub const EVENT_FORK: u32 = 1;

/// A process started a program.
pub const EVENT_EXEC: u32 = 2;

/// A thread was given another name.
pub const EVENT_RENAME: u32 = 3;

/// A thread ended.
pub const EVENT_EXIT: u32 = 4;

/// Where the fields of the tracepoints stand. They differ from kernel to kernel and are handed to
/// the program when it is loaded.
#[derive(Clone, Copy, Debug, PartialEq, Eq, Structural)]
pub struct TracepointOffsets {
    pub fork_child_pid: u32,
    pub fork_child_comm: u32,
    pub rename_newcomm: u32,
}

/// An event that is reported.
#[derive(Clone, Copy, Debug)]
pub struct ProcEvent {
    pub pid: i32,
    pub tid: i32,
    pub comm: [u8; 16],
    pub event_type: u32,
}

/// What a `ProcEvent` says.
pub struct EventView {
    pub pid: int,
    pub tid: int,
    pub comm: Seq<u8>,
    pub event_type: u32,
}

impl View for ProcEvent {
    type V = EventView;

    open spec fn view(&self) -> EventView {
        EventView {
            pid: self.pid as int,
            tid: self.tid as int,
            comm: self.comm@,
            event_type: self.event_type,
        }
    }
}

/// What is to be done at a tracepoint.
#[derive(Clone, Copy, Debug)]
pub enum Verdict {
    /// Nothing.
    Ignore,
    /// Report the event.
    Report(ProcEvent),
    /// Keep track of the thread, and report the event.
    Track(u32, ProcEvent),
    /// Keep track of the thread no longer, and report the event.
    Untrack(u32, ProcEvent),
}

/// What a `Verdict` says.
pub enum VerdictView {
    Ignore,
    Report(EventView),
    Track(u32, EventView),
    Untrack(u32, EventView),
}

impl View for Verdict {
    type V = VerdictView;

    open spec fn view(&self) -> VerdictView {
        match self {
            Verdict::Ignore => VerdictView::Ignore,
            Verdict::Report(e) => VerdictView::Report(e@),
            Verdict::Track(tid, e) => VerdictView::Track(*tid, e@),
            Verdict::Untrack(tid, e) => VerdictView::Untrack(*tid, e@),
        }
    }
}

/// The thread in the number that stands for a thread and its process: the low half.
pub open spec fn thread_of(pid_tgid: u64) -> u32 {
    (pid_tgid % 0x1_0000_0000) as u32
}

/// The process in the number that stands for a thread and its process: the high half.
pub open spec fn process_of(pid_tgid: u64) -> u32 {
    (pid_tgid / 0x1_0000_0000) as u32
}

/// The number with the same 32 bits as `n`.
pub open spec fn as_signed(n: u32) -> int {
    bytes::signed32(n as nat)
}

/// The number that is not negative, with the same 32 bits as `n`.
pub open spec fn as_unsigned(n: int) -> u32 {
    (if n < 0 {
        n + 0x1_0000_0000
    } else {
        n
    }) as u32
}

/// The offsets are there only once they were handed over: a field at 0 says that they were not.
pub open spec fn usable(stored: Option<TracepointOffsets>) -> Option<TracepointOffsets> {
    match stored {
        Some(o) => if o.fork_child_pid != 0 {
            Some(o)
        } else {
            None
        },
        None => None,
    }
}

/// 16 zeros.
pub open spec fn no_name() -> Seq<u8> {
    Seq::new(16, |i: int| 0u8)
}

/// The bytes of a name that could be read; zeros where it could not.
pub open spec fn name_or_zeros(name: Option<[u8; 16]>) -> Seq<u8> {
    match name {
        Some(b) => b@,
        None => no_name(),
    }
}

/// Eight bytes of `comm` from `pos` on.
pub open spec fn window(comm: Seq<u8>, pos: int) -> Seq<u8> {
    comm.subrange(pos, pos + 8)
}

/// `hit` is what `listed` says of the window of `comm` at `pos`.
pub open spec fn looked_up<F: Fn([u8; 8]) -> bool>(
    listed: F,
    comm: Seq<u8>,
    pos: int,
    hit: bool,
) -> bool {
    exists|key: [u8; 8]|
        key@ == window(comm, pos) && #[trigger] call_ensures(listed, (key,), hit)
}

/// `hit` says whether one of the windows of eight bytes in `comm` is on the whitelist, which
/// `listed` looks up.
pub open spec fn on_whitelist<F: Fn([u8; 8]) -> bool>(
    listed: F,
    comm: Seq<u8>,
    hit: bool,
) -> bool {
    if hit {
        exists|pos: int| 0 <= pos <= 8 && #[trigger] looked_up(listed, comm, pos, true)
    } else {
        forall|pos: int| 0 <= pos <= 8 ==> #[trigger] looked_up(listed, comm, pos, false)
    }
}

/// The number with the same 32 bits as `n`.
fn to_signed(n: u32) -> (r: i32)
    ensures
        r == as_signed(n),
{
    if n >= 0x8000_0000 {
        (n as i64 - 0x1_0000_0000) as i32
    } else {
        n as i32
    }
}

/// The number that is not negative, with the same 32 bits as `n`.
fn to_unsigned(n: i32) -> (r: u32)
    ensures
        r == as_unsigned(n as int),
{
    if n < 0 {
        (n as i64 + 0x1_0000_0000) as u32
    } else {
        n as u32
    }
}

/// The thread and the process in the number that stands for both.
fn halves(pid_tgid: u64) -> (r: (u32, u32))
    ensures
        r.0 == thread_of(pid_tgid),
        r.1 == process_of(pid_tgid),
{
    ((pid_tgid % 0x1_0000_0000) as u32, (pid_tgid / 0x1_0000_0000) as u32)
}

/// A name that could be read; zeros where it could not.
fn name_bytes(name: Option<[u8; 16]>) -> (r: [u8; 16])
    ensures
        r@ == name_or_zeros(name),
{
    match name {
        Some(b) => b,
        None => {
            let r: [u8; 16] = [0u8;16];
            assert(r@ =~= no_name());
            r
        },
    }
}

/// The offsets, if they were handed over.
pub fn offsets_load(stored: Option<TracepointOffsets>) -> (r: Option<TracepointOffsets>)
    ensures
        r == usable(stored),
{
    match stored {
        Some(o) => if o.fork_child_pid != 0 {
            Some(o)
        } else {
            None
        },
        None => None,
    }
}

/// Whether one of the windows of eight bytes in `comm` is on the whitelist, which `listed` looks
/// up.
pub fn whitelist_matched<F: Fn([u8; 8]) -> bool>(comm: &[u8; 16], listed: F) -> (r: bool)
    requires
        forall|key: [u8; 8]| #[trigger] call_requires(listed, (key,)),
    ensures
        on_whitelist(listed, comm@, r),
{
    let mut pos: usize = 0;
    while pos <= 8
        invariant
            pos <= 9,
            forall|key: [u8; 8]| #[trigger] call_requires(listed, (key,)),
            forall|p: int| 0 <= p < pos ==> #[trigger] looked_up(listed, comm@, p, false),
        decreases 9 - pos,
    {
        let key: [u8; 8] = [
            comm[pos],
            comm[pos + 1],
            comm[pos + 2],
            comm[pos + 3],
            comm[pos + 4],
            comm[pos + 5],
            comm[pos + 6],
            comm[pos + 7],
        ];
        assert(key@ =~= window(comm@, pos as int));
        if listed(key) {
            assert(looked_up(listed, comm@, pos as int, true));
            return true;
        }
        pos += 1;
    }
    false
}

/// The process, the thread and the name of what was forked. The process is that of the parent,
/// which a new thread shares; what could not be read is 0.
pub fn fork_parse(pid_tgid: u64, child_pid: Option<i32>, child_comm: Option<[u8; 16]>) -> (r: (
    i32,
    i32,
    [u8; 16],
))
    ensures
        r.0 == as_signed(process_of(pid_tgid)),
        r.1 == (match child_pid {
            Some(n) => n,
            None => 0,
        }),
        r.2@ == name_or_zeros(child_comm),
{
    let (_, tgid) = halves(pid_tgid);
    let tid: i32 = match child_pid {
        Some(n) => n,
        None => 0,
    };
    (to_signed(tgid), tid, name_bytes(child_comm))
}

/// What is to be done when the thread `pid_tgid` forks.
pub open spec fn fork_verdict(
    offsets: Option<TracepointOffsets>,
    pid_tgid: u64,
    child_pid: Option<i32>,
    child_comm: Option<[u8; 16]>,
    managed: bool,
    listed: bool,
) -> VerdictView {
    let tid: int = match child_pid {
        Some(n) => n as int,
        None => 0,
    };
    let event = EventView {
        pid: as_signed(process_of(pid_tgid)),
        tid,
        comm: name_or_zeros(child_comm),
        event_type: EVENT_FORK,
    };
    if usable(offsets) is None || !(managed || listed) {
        VerdictView::Ignore
    } else if managed {
        VerdictView::Track(as_unsigned(tid), event)
    } else {
        VerdictView::Report(event)
    }
}

/// What is to be done when the thread `pid_tgid` forks the thread `child_pid` with the name
/// `child_comm`. A thread forked by one that is kept track of is kept track of too. One that is
/// not is reported where its name, or zeros where that could not be read, is on the whitelist, which
/// `listed` looks up.
pub fn sched_process_fork<F: Fn([u8; 8]) -> bool>(
    offsets: Option<TracepointOffsets>,
    pid_tgid: u64,
    child_pid: Option<i32>,
    child_comm: Option<[u8; 16]>,
    managed: bool,
    listed: F,
) -> (r: Verdict)
    requires
        forall|key: [u8; 8]| #[trigger] call_requires(listed, (key,)),
    ensures
        usable(offsets) is None || managed ==> r@ == fork_verdict(
            offsets,
            pid_tgid,
            child_pid,
            child_comm,
            managed,
            false,
        ),
        usable(offsets) is Some && !managed ==> exists|hit: bool|
            #[trigger] on_whitelist(listed, name_or_zeros(child_comm), hit) && r@ == fork_verdict(
                offsets,
                pid_tgid,
                child_pid,
                child_comm,
                false,
                hit,
            ),
{
    if offsets_load(offsets).is_none() {
        return Verdict::Ignore;
    }
    let (pid, tid, comm) = fork_parse(pid_tgid, child_pid, child_comm);
    if !managed && !whitelist_matched(&comm, listed) {
        return Verdict::Ignore;
    }
    let event: ProcEvent = ProcEvent { pid, tid, comm, event_type: EVENT_FORK };
    if managed {
        Verdict::Track(to_unsigned(tid), event)
    } else {
        Verdict::Report(event)
    }
}

/// What is to be done when the thread `pid_tgid` starts a program.
pub open spec fn exec_verdict(pid_tgid: u64, comm: Option<[u8; 16]>, listed: bool) -> VerdictView {
    if listed {
        VerdictView::Report(
            EventView {
                pid: as_signed(process_of(pid_tgid)),
                tid: as_signed(thread_of(pid_tgid)),
                comm: name_or_zeros(comm),
                event_type: EVENT_EXEC,
            },
        )
    } else {
        VerdictView::Ignore
    }
}

/// What is to be done when the thread `pid_tgid` with the name `comm` starts a program: it is
/// reported where its name, or zeros where that could not be read, is on the whitelist, which
/// `listed` looks up.
pub fn sched_process_exec<F: Fn([u8; 8]) -> bool>(
    pid_tgid: u64,
    comm: Option<[u8; 16]>,
    listed: F,
) -> (r: Verdict)
    requires
        forall|key: [u8; 8]| #[trigger] call_requires(listed, (key,)),
    ensures
        exists|hit: bool|
            #[trigger] on_whitelist(listed, name_or_zeros(comm), hit) && r@ == exec_verdict(
                pid_tgid,
                comm,
                hit,
            ),
{
    let name: [u8; 16] = name_bytes(comm);
    if !whitelist_matched(&name, listed) {
        return Verdict::Ignore;
    }
    let (tid, tgid) = halves(pid_tgid);
    Verdict::Report(
        ProcEvent {
            pid: to_signed(tgid),
            tid: to_signed(tid),
            comm: name,
            event_type: EVENT_EXEC,
        },
    )
}

/// What is to be done when the thread `pid_tgid` is given the name `new_comm`.
pub open spec fn rename_verdict(
    offsets: Option<TracepointOffsets>,
    pid_tgid: u64,
    new_comm: Option<[u8; 16]>,
    managed: bool,
    listed: bool,
) -> VerdictView {
    if thread_of(pid_tgid) == 0 || usable(offsets) is None || !(managed || listed) {
        VerdictView::Ignore
    } else {
        VerdictView::Report(
            EventView {
                pid: as_signed(process_of(pid_tgid)),
                tid: as_signed(thread_of(pid_tgid)),
                comm: name_or_zeros(new_comm),
                event_type: EVENT_RENAME,
            },
        )
    }
}

/// What is to be done when the thread `pid_tgid` is given the name `new_comm`: it is reported where
/// it is kept track of, or the name, or zeros where that could not be read, is on the whitelist,
/// which `listed` looks up.
pub fn task_rename<F: Fn([u8; 8]) -> bool>(
    offsets: Option<TracepointOffsets>,
    pid_tgid: u64,
    new_comm: Option<[u8; 16]>,
    managed: bool,
    listed: F,
) -> (r: Verdict)
    requires
        forall|key: [u8; 8]| #[trigger] call_requires(listed, (key,)),
    ensures
        thread_of(pid_tgid) == 0 || usable(offsets) is None || managed ==> r@ == rename_verdict(
            offsets,
            pid_tgid,
            new_comm,
            managed,
            false,
        ),
        thread_of(pid_tgid) != 0 && usable(offsets) is Some && !managed ==> exists|hit: bool|
            #[trigger] on_whitelist(listed, name_or_zeros(new_comm), hit) && r@ == rename_verdict(
                offsets,
                pid_tgid,
                new_comm,
                false,
                hit,
            ),
{
    let (tid, tgid) = halves(pid_tgid);
    if tid == 0 {
        return Verdict::Ignore;
    }
    if offsets_load(offsets).is_none() {
        return Verdict::Ignore;
    }
    let name: [u8; 16] = name_bytes(new_comm);
    if !managed && !whitelist_matched(&name, listed) {
        return Verdict::Ignore;
    }
    Verdict::Report(
        ProcEvent {
            pid: to_signed(tgid),
            tid: to_signed(tid),
            comm: name,
            event_type: EVENT_RENAME,
        },
    )
}

/// What is to be done when the thread `pid_tgid` ends.
pub open spec fn exit_verdict(pid_tgid: u64, managed: bool) -> VerdictView {
    if managed {
        VerdictView::Untrack(
            thread_of(pid_tgid),
            EventView {
                pid: as_signed(process_of(pid_tgid)),
                tid: as_signed(thread_of(pid_tgid)),
                comm: no_name(),
                event_type: EVENT_EXIT,
            },
        )
    } else {
        VerdictView::Ignore
    }
}

/// What is to be done when the thread `pid_tgid` ends: one that is kept track of is so no longer,
/// and is reported.
pub fn sched_process_exit(pid_tgid: u64, managed: bool) -> (r: Verdict)
    ensures
        r@ == exit_verdict(pid_tgid, managed),
{
    if !managed {
        return Verdict::Ignore;
    }
    let (tid, tgid) = halves(pid_tgid);
    Verdict::Untrack(
        tid,
        ProcEvent {
            pid: to_signed(tgid),
            tid: to_signed(tid),
            comm: name_bytes(None),
            event_type: EVENT_EXIT,
        },
    )
}

/// The threads that are kept track of after a verdict.
pub open spec fn managed_after(managed: Set<u32>, v: VerdictView) -> Set<u32> {
    match v {
        VerdictView::Ignore => managed,
        VerdictView::Report(_) => managed,
        VerdictView::Track(tid, _) => managed.insert(tid),
        VerdictView::Untrack(tid, _) => managed.remove(tid),
    }
}

/// The event that a verdict reports.
pub open spec fn reported(v: VerdictView) -> Option<EventView> {
    match v {
        VerdictView::Ignore => None,
        VerdictView::Report(e) => Some(e),
        VerdictView::Track(_, e) => Some(e),
        VerdictView::Untrack(_, e) => Some(e),
    }
}

/// A thread that is forked by one that is kept track of is kept track of from then on, until it
/// ends; its end is reported. A thread that ends is kept track of no longer.
pub proof fn law_tracking(
    managed: Set<u32>,
    offsets: Option<TracepointOffsets>,
    parent: u64,
    child: u64,
    child_pid: i32,
    child_comm: Option<[u8; 16]>,
    listed: bool,
)
    requires
        usable(offsets) is Some,
        managed.contains(thread_of(parent)),
        as_signed(thread_of(child)) == child_pid,
    ensures
        ({
            let forked = fork_verdict(offsets, parent, Some(child_pid), child_comm, true, listed);
            let mid = managed_after(managed, forked);
            let ended = exit_verdict(child, mid.contains(thread_of(child)));
            &&& mid.contains(thread_of(child))
            &&& reported(ended) matches Some(e) && e.tid == child_pid && e.event_type == EVENT_EXIT
            &&& !managed_after(mid, ended).contains(thread_of(child))
        }),
{
}

/// What is neither kept track of nor on the whitelist is never reported, and does not change what
/// is kept track of.
pub proof fn law_unlisted_ignored(
    managed: Set<u32>,
    offsets: Option<TracepointOffsets>,
    pid_tgid: u64,
    child_pid: Option<i32>,
    comm: Option<[u8; 16]>,
)
    ensures
        fork_verdict(offsets, pid_tgid, child_pid, comm, false, false) is Ignore,
        exec_verdict(pid_tgid, comm, false) is Ignore,
        rename_verdict(offsets, pid_tgid, comm, false, false) is Ignore,
        exit_verdict(pid_tgid, false) is Ignore,
        managed_after(managed, VerdictView::Ignore) == managed,
{
}

} // verus!
