//! What is reported at the tracepoints.

use vstd::prelude::*;

use crate::tracepoint;
use crate::tracepoint::{EventView, ProcEvent, TracepointOffsets, Verdict, VerdictView};

verus! {

/// A look-up that answers for the keys `keys`.
pub open spec fn answers_for<F: Fn([u8; 8]) -> bool>(listed: F, keys: Set<Seq<u8>>) -> bool {
    forall|key: [u8; 8], hit: bool| #[trigger]
        call_ensures(listed, (key,), hit) ==> hit == keys.contains(key@)
}

/// A name of 16 bytes is matched just where eight bytes in a row of it, wherever they stand, are
/// a key of the whitelist.
pub proof fn law_whitelist_windows<F: Fn([u8; 8]) -> bool>(
    listed: F,
    keys: Set<Seq<u8>>,
    comm: Seq<u8>,
    hit: bool,
)
    requires
        comm.len() == 16,
        answers_for(listed, keys),
        tracepoint::on_whitelist(listed, comm, hit),
    ensures
        hit <==> exists|front: Seq<u8>, key: Seq<u8>, back: Seq<u8>|
            comm == #[trigger] ((front + key) + back) && key.len() == 8 && keys.contains(key),
{
    if hit {
        let pos = choose|pos: int|
            0 <= pos <= 8 && #[trigger] tracepoint::looked_up(listed, comm, pos, true);
        let key = choose|key: [u8; 8]|
            key@ == tracepoint::window(comm, pos) && #[trigger] call_ensures(
                listed,
                (key,),
                true,
            );
        let front = comm.take(pos);
        let back = comm.skip(pos + 8);
        assert(comm =~= (front + key@) + back);
        assert(keys.contains(key@));
    }
    if exists|front: Seq<u8>, key: Seq<u8>, back: Seq<u8>|
        comm == #[trigger] ((front + key) + back) && key.len() == 8 && keys.contains(key) {
        let (front, key, back) = choose|front: Seq<u8>, key: Seq<u8>, back: Seq<u8>|
            comm == #[trigger] ((front + key) + back) && key.len() == 8 && keys.contains(key);
        law_key_anywhere(listed, keys, front, key, back, hit);
    }
}

/// A key of the whitelist is found wherever it stands in a name.
pub proof fn law_key_anywhere<F: Fn([u8; 8]) -> bool>(
    listed: F,
    keys: Set<Seq<u8>>,
    front: Seq<u8>,
    key: Seq<u8>,
    back: Seq<u8>,
    hit: bool,
)
    requires
        front.len() + key.len() + back.len() == 16,
        key.len() == 8,
        keys.contains(key),
        answers_for(listed, keys),
        tracepoint::on_whitelist(listed, (front + key) + back, hit),
    ensures
        hit,
{
    let comm = (front + key) + back;
    let pos = front.len() as int;
    if !hit {
        assert(tracepoint::looked_up(listed, comm, pos, false));
        let k = choose|k: [u8; 8]|
            k@ == tracepoint::window(comm, pos) && #[trigger] call_ensures(listed, (k,), false);
        assert(k@ =~= key);
    }
}

/// The number for a thread and its process is that of the process, a shift of 32 bits, and that
/// of the thread.
pub proof fn law_thread_and_process(pid_tgid: u64)
    ensures
        tracepoint::thread_of(pid_tgid) + 4294967296 * tracepoint::process_of(pid_tgid)
            == pid_tgid,
{
}

/// Reading 32 bits as a signed number and back gives the same bits, and numbers below 2 to the
/// 31st stay.
pub proof fn law_signs(n: u32, i: i32)
    ensures
        tracepoint::as_unsigned(tracepoint::as_signed(n)) == n,
        tracepoint::as_signed(tracepoint::as_unsigned(i as int)) == i,
        n <= 2147483647 ==> tracepoint::as_signed(n) == n,
        i >= 0 ==> tracepoint::as_unsigned(i as int) == i,
{
}

/// The event tells of the process and the thread of `pid_tgid`.
pub open spec fn tells_of(e: EventView, pid_tgid: u64, comm: Seq<u8>, event_type: u32) -> bool {
    &&& tracepoint::as_unsigned(e.pid) == pid_tgid / 4294967296
    &&& tracepoint::as_unsigned(e.tid) == pid_tgid % 4294967296
    &&& -2147483648 <= e.pid <= 2147483647
    &&& -2147483648 <= e.tid <= 2147483647
    &&& e.comm == comm
    &&& e.event_type == event_type
}

/// The bytes of a name are those that were read, and 16 zeros where none were.
pub proof fn law_name_bytes(name: [u8; 16], i: int)
    ensures
        tracepoint::name_or_zeros(Some(name)) == name@,
        tracepoint::name_or_zeros(None).len() == 16,
        0 <= i < 16 ==> tracepoint::name_or_zeros(None)[i] == 0,
{
}

/// The offsets can be used just where they were handed over and that of the child is not 0.
pub proof fn law_offsets(stored: TracepointOffsets)
    ensures
        stored.fork_child_pid != 0 ==> tracepoint::usable(Some(stored)) == Some(stored),
        stored.fork_child_pid == 0 ==> tracepoint::usable(Some(stored)) is None,
        tracepoint::usable(None) is None,
{
}

/// A fork is reported where the parent is kept track of or the name is on the whitelist, with the
/// process of the parent, the number of the child, or 0, and its name; the child is kept track of
/// where the parent is. Without the offsets nothing is reported.
pub proof fn law_fork(
    offsets: TracepointOffsets,
    pid_tgid: u64,
    child: i32,
    comm: Option<[u8; 16]>,
    managed: bool,
    listed: bool,
)
    ensures
        ({
            let v = tracepoint::fork_verdict(
                Some(offsets),
                pid_tgid,
                Some(child),
                comm,
                managed,
                listed,
            );
            &&& offsets.fork_child_pid == 0 || (!managed && !listed) ==> v is Ignore
            &&& offsets.fork_child_pid != 0 && managed ==> {
                &&& v matches VerdictView::Track(tid, e)
                &&& tracepoint::as_signed(v->Track_0) == child
                &&& tracepoint::reported(v) == Some(v->Track_1)
                &&& v->Track_1.tid == child
            }
            &&& offsets.fork_child_pid != 0 && !managed && listed ==> (v matches
                VerdictView::Report(e) && e.tid == child)
            &&& tracepoint::reported(v) matches Some(e) ==> tracepoint::as_unsigned(e.pid)
                == pid_tgid / 4294967296 && -2147483648 <= e.pid <= 2147483647 && e.comm
                == tracepoint::name_or_zeros(comm) && e.event_type == 1
        }),
        tracepoint::fork_verdict(None, pid_tgid, Some(child), comm, managed, listed) is Ignore,
        tracepoint::fork_verdict(None, pid_tgid, None, comm, managed, listed) is Ignore,
        tracepoint::fork_verdict(Some(offsets), pid_tgid, None, comm, managed, listed)
            == tracepoint::fork_verdict(Some(offsets), pid_tgid, Some(0), comm, managed, listed),
{
}

/// The start of a program is reported just where the name is on the whitelist.
pub proof fn law_exec(pid_tgid: u64, comm: Option<[u8; 16]>, listed: bool)
    ensures
        !listed ==> tracepoint::exec_verdict(pid_tgid, comm, listed) is Ignore,
        listed ==> (tracepoint::exec_verdict(pid_tgid, comm, listed) matches VerdictView::Report(e)
            && tells_of(e, pid_tgid, tracepoint::name_or_zeros(comm), 2)),
{
}

/// A new name is reported where the thread is kept track of or the name is on the whitelist,
/// unless the thread is number 0 or the offsets are missing.
pub proof fn law_rename(
    offsets: Option<TracepointOffsets>,
    pid_tgid: u64,
    comm: Option<[u8; 16]>,
    managed: bool,
    listed: bool,
)
    ensures
        ({
            let v = tracepoint::rename_verdict(offsets, pid_tgid, comm, managed, listed);
            let due = (managed || listed) && pid_tgid % 4294967296 != 0 && (offsets matches Some(o)
                && o.fork_child_pid != 0);
            &&& due ==> (v matches VerdictView::Report(e) && tells_of(
                e,
                pid_tgid,
                tracepoint::name_or_zeros(comm),
                3,
            ))
            &&& !due ==> v is Ignore
        }),
{
}

/// The end of a thread is reported, with no name, just where it was kept track of, and it is kept
/// track of no longer.
pub proof fn law_exit(pid_tgid: u64, managed: bool)
    ensures
        !managed ==> tracepoint::exit_verdict(pid_tgid, managed) is Ignore,
        managed ==> (tracepoint::exit_verdict(pid_tgid, managed) matches VerdictView::Untrack(tid, e)
            && tid == pid_tgid % 4294967296 && tells_of(
            e,
            pid_tgid,
            tracepoint::name_or_zeros(None),
            4,
        )),
{
}

/// What is kept track of changes only where a verdict says so: by the thread that it names.
pub proof fn law_kept_track_of(managed: Set<u32>, v: VerdictView, tid: u32)
    ensures
        tracepoint::managed_after(managed, v).contains(tid) <==> match v {
            VerdictView::Track(t, _) => t == tid || managed.contains(tid),
            VerdictView::Untrack(t, _) => t != tid && managed.contains(tid),
            _ => managed.contains(tid),
        },
        tracepoint::reported(v) is None <==> v is Ignore,
{
}

/// An event and a verdict say what they hold.
pub proof fn law_verdict_says(v: Verdict, e: ProcEvent)
    ensures
        e@.pid == e.pid && e@.tid == e.tid && e@.comm == e.comm@ && e@.event_type == e.event_type,
        v is Ignore <==> v@ is Ignore,
        v matches Verdict::Report(x) ==> v@ == VerdictView::Report(x@),
        v matches Verdict::Track(t, x) ==> v@ == VerdictView::Track(t, x@),
        v matches Verdict::Untrack(t, x) ==> v@ == VerdictView::Untrack(t, x@),
{
}

} // verus!
