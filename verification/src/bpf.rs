//! The kernel side: the maps and programs that are loaded, the rules that are handed to them, and
//! what they report.

use vstd::prelude::*;

use crate::bytes;
use crate::bytes::ByteOrder;
use crate::config;
use crate::config::Rule;
use crate::cpuset;

pub mod loading;

verus! {

/// What stands for no descriptor.
pub const NO_FD: i32 = -1;

/// The descriptors of what is loaded into the kernel; `NO_FD` stands for none.
#[derive(Clone, Copy, Debug, PartialEq, Eq, Structural)]
pub struct BpfCtx {
    /// Whether anything is loaded.
    pub ok: bool,
    /// The ring buffer that reports processes.
    pub ring_fd: i32,
    /// The program that reports a process.
    pub prog_fd: i32,
    /// The program that puts a new process on its CPUs.
    pub prog2_fd: i32,
    /// The event that runs the reporting program when a process starts a program.
    pub pe_fd: i32,
    /// The event that runs the reporting program when a process forks.
    pub pe_fd2: i32,
    /// The event that runs the other program when a process starts a program.
    pub pe_fd3: i32,
    /// The map with the rules for threads.
    pub rule_map_fd: i32,
}

/// Nothing is loaded.
pub open spec fn nothing_loaded() -> BpfCtx {
    BpfCtx {
        ok: false,
        ring_fd: NO_FD,
        prog_fd: NO_FD,
        prog2_fd: NO_FD,
        pe_fd: NO_FD,
        pe_fd2: NO_FD,
        pe_fd3: NO_FD,
        rule_map_fd: NO_FD,
    }
}

/// Nothing is loaded.
pub fn bpf_fail() -> (r: BpfCtx)
    ensures
        r == nothing_loaded(),
{
    BpfCtx {
        ok: false,
        ring_fd: NO_FD,
        prog_fd: NO_FD,
        prog2_fd: NO_FD,
        pe_fd: NO_FD,
        pe_fd2: NO_FD,
        pe_fd3: NO_FD,
        rule_map_fd: NO_FD,
    }
}

/// The descriptors among `fds`: the numbers that are not negative.
pub open spec fn descriptors(fds: Seq<i32>) -> Seq<i32> {
    fds.filter(|fd: i32| fd >= 0)
}

/// What `descriptors` keeps.
pub proof fn lemma_descriptors(fds: Seq<i32>, fd: i32)
    ensures
        descriptors(fds).contains(fd) <==> fd >= 0 && fds.contains(fd),
    decreases fds.len(),
{
    reveal(Seq::filter);
    if fds.len() > 0 {
        let front = fds.drop_last();
        lemma_descriptors(front, fd);
        if front.contains(fd) {
            let i = choose|i: int| 0 <= i < front.len() && front[i] == fd;
            assert(fds[i] == fd);
        }
        if fds.contains(fd) && fd != fds.last() {
            let i = choose|i: int| 0 <= i < fds.len() && fds[i] == fd;
            assert(front[i] == fd);
        }
        let kept = descriptors(front);
        let all = descriptors(fds);
        if fds.last() >= 0 {
            assert(all == kept.push(fds.last()));
            assert(all[kept.len() as int] == fds.last());
            if kept.contains(fd) {
                let i = choose|i: int| 0 <= i < kept.len() && kept[i] == fd;
                assert(all[i] == fd);
            }
        }
    }
}

impl BpfCtx {
    /// All descriptors and numbers that stand for none, in the order in which they are closed.
    pub open spec fn fds(self) -> Seq<i32> {
        seq![
            self.pe_fd3,
            self.pe_fd2,
            self.pe_fd,
            self.prog2_fd,
            self.prog_fd,
            self.rule_map_fd,
            self.ring_fd,
        ]
    }

    /// The descriptors to close when nothing of it is needed any more.
    pub fn open_fds(&self) -> (r: Vec<i32>)
        ensures
            r@ == descriptors(self.fds()),
    {
        let all: [i32; 7] = [
            self.pe_fd3,
            self.pe_fd2,
            self.pe_fd,
            self.prog2_fd,
            self.prog_fd,
            self.rule_map_fd,
            self.ring_fd,
        ];
        assert(all@ =~= self.fds());
        let mut r: Vec<i32> = Vec::new();
        let mut i: usize = 0;
        assert(descriptors(all@.take(0)) =~= Seq::empty()) by {
            reveal(Seq::filter);
        }
        while i < 7
            invariant
                i <= 7,
                all@.len() == 7,
                r@ == descriptors(all@.take(i as int)),
            decreases 7 - i,
        {
            proof {
                reveal(Seq::filter);
                assert(all@.take(i + 1).drop_last() =~= all@.take(i as int));
            }
            if all[i] >= 0 {
                r.push(all[i]);
            }
            i += 1;
        }
        assert(all@.take(7) =~= all@);
        r
    }

    /// Rules can be handed to the kernel.
    pub open spec fn takes_rules(self) -> bool {
        self.ok && self.rule_map_fd >= 0
    }

    /// Whether rules can be handed to the kernel.
    pub fn can_take_rules(&self) -> (r: bool)
        ensures
            r == self.takes_rules(),
    {
        self.ok && self.rule_map_fd >= 0
    }
}

/// The flags of an update that makes an entry, or takes the place of the one with its key.
pub const INSERT_OR_REPLACE: u64 = 0;

/// An entry of the map with the rules: the CPUs `value` for the threads with the name `key`.
pub struct MapUpdate {
    pub fd: u32,
    pub key: [u8; 16],
    pub value: u64,
    pub flags: u64,
}

/// What a `MapUpdate` says.
pub struct UpdateView {
    pub fd: int,
    pub key: Seq<u8>,
    pub value: u64,
    pub flags: u64,
}

impl View for MapUpdate {
    type V = UpdateView;

    open spec fn view(&self) -> UpdateView {
        UpdateView { fd: self.fd as int, key: self.key@, value: self.value, flags: self.flags }
    }
}

/// What the entries `v` say.
pub open spec fn update_views(v: Seq<MapUpdate>) -> Seq<UpdateView> {
    v.map_values(|u: MapUpdate| u@)
}

/// The entry that hands the rule for the threads `comm` to the kernel, whether or not it has one
/// for them; `None` where rules cannot be handed to it.
pub fn set_rule(ctx: &BpfCtx, comm: &[u8; 16], cpumask: u64) -> (r: Option<MapUpdate>)
    ensures
        r is Some <==> ctx.takes_rules(),
        r matches Some(u) ==> u@ == (UpdateView {
            fd: ctx.rule_map_fd as int,
            key: comm@,
            value: cpumask,
            flags: INSERT_OR_REPLACE,
        }),
{
    if !ctx.can_take_rules() {
        return None;
    }
    Some(
        MapUpdate {
            fd: ctx.rule_map_fd as u32,
            key: *comm,
            value: cpumask,
            flags: INSERT_OR_REPLACE,
        },
    )
}

/// The name under which the kernel knows the threads `thread`: the first 15 bytes of it, followed
/// by zeros up to 16.
pub open spec fn kernel_name(thread: Seq<char>) -> Seq<u8> {
    let b = vstd::utf8::encode_utf8(thread);
    Seq::new(
        16,
        |i: int|
            if i < 15 && i < b.len() {
                b[i]
            } else {
                0u8
            },
    )
}

/// The entries that hand the rules for threads among `rules` to the kernel.
pub open spec fn kernel_rules(fd: int, rules: Seq<config::RuleView>) -> Seq<UpdateView>
    decreases rules.len(),
{
    if rules.len() == 0 {
        Seq::empty()
    } else {
        let before = kernel_rules(fd, rules.drop_last());
        let rule = rules.last();
        if rule.thread.len() == 0 {
            before
        } else {
            before.push(
                UpdateView {
                    fd,
                    key: kernel_name(rule.thread),
                    value: cpuset::list_mask(rule.cpus),
                    flags: INSERT_OR_REPLACE,
                },
            )
        }
    }
}

/// The name under which the kernel knows the threads `thread`.
fn comm_key(thread: &str) -> (r: [u8; 16])
    ensures
        r@ == kernel_name(thread@),
{
    let b: &[u8] = thread.as_bytes();
    let mut r: [u8; 16] = [0u8;16];
    let mut i: usize = 0;
    while i < 15 && i < b.len()
        invariant
            b@ == vstd::utf8::encode_utf8(thread@),
            i <= 15,
            i <= b@.len(),
            r@.len() == 16,
            forall|j: int| 0 <= j < 16 ==> #[trigger] r@[j] == (if j < i {
                b@[j]
            } else {
                0u8
            }),
        decreases 15 - i,
    {
        r[i] = b[i];
        i += 1;
    }
    assert(r@ =~= kernel_name(thread@));
    r
}

/// The entries that hand the rules for threads among `rules` to the kernel; none where rules cannot
/// be handed to it. Rules for whole packages are not for the kernel.
pub fn sync_rules(ctx: &BpfCtx, rules: &[Rule]) -> (r: Vec<MapUpdate>)
    ensures
        update_views(r@) == (if ctx.takes_rules() {
            kernel_rules(ctx.rule_map_fd as int, config::rule_views(rules@))
        } else {
            Seq::empty()
        }),
{
    let mut r: Vec<MapUpdate> = Vec::new();
    assert(update_views(r@) =~= Seq::empty());
    if !ctx.can_take_rules() {
        return r;
    }
    let ghost all = config::rule_views(rules@);
    let ghost fd = ctx.rule_map_fd as int;
    let mut i: usize = 0;
    assert(all.take(0) =~= Seq::empty());
    while i < rules.len()
        invariant
            ctx.takes_rules(),
            fd == ctx.rule_map_fd as int,
            i <= rules@.len(),
            all == config::rule_views(rules@),
            update_views(r@) == kernel_rules(fd, all.take(i as int)),
        decreases rules@.len() - i,
    {
        assert(all.take(i + 1).drop_last() =~= all.take(i as int));
        assert(all.take(i + 1).last() == rules@[i as int]@);
        if !rules[i].thread.as_str().is_empty() {
            let comm: [u8; 16] = comm_key(rules[i].thread.as_str());
            let mask: u64 = cpuset::cpu_mask(rules[i].cpus.as_str());
            let ghost had = r@;
            if let Some(u) = set_rule(ctx, &comm, mask) {
                let ghost view = u@;
                r.push(u);
                assert(update_views(r@) =~= update_views(had).push(view));
            }
        }
        i += 1;
    }
    assert(all.take(i as int) =~= all);
    r
}

/// The length of the record that stands in `buf` at `off`: the two highest bytes of its header.
pub open spec fn ring_record_len(buf: Seq<u8>, off: int, order: ByteOrder) -> int {
    bytes::number_at(buf, off, 8, order) as int / 0x1_0000_0000_0000
}

/// How far the next record is from the one that stands in `buf` at `off`: its length up to a
/// multiple of 8. What has no header's length, or more than is there, is passed over, 8 bytes at a
/// time.
pub open spec fn ring_step(buf: Seq<u8>, off: int, order: ByteOrder) -> int {
    let len = ring_record_len(buf, off, order);
    if len < 8 || off + len > buf.len() {
        8
    } else {
        (len + 7) / 8 * 8
    }
}

/// The process that the record in `buf` at `off` reports, if it does.
pub open spec fn ring_pid(buf: Seq<u8>, off: int, order: ByteOrder) -> Option<int> {
    let len = ring_record_len(buf, off, order);
    let pid = bytes::signed32(bytes::number_at(buf, off + 8, 4, order));
    if len >= 12 && off + len <= buf.len() && pid > 0 {
        Some(pid)
    } else {
        None
    }
}

/// The processes that the records in `buf` from `off` on report.
pub open spec fn ring_pids(buf: Seq<u8>, off: int, order: ByteOrder) -> Seq<int>
    decreases
            (if off < buf.len() {
                buf.len() - off
            } else {
                0
            }),
{
    if off + 8 > buf.len() || ring_step(buf, off, order) <= 0 {
        Seq::empty()
    } else {
        let rest = ring_pids(buf, off + ring_step(buf, off, order), order);
        match ring_pid(buf, off, order) {
            Some(pid) => seq![pid] + rest,
            None => rest,
        }
    }
}

/// The processes that the records in the buffers `chunks` report, one buffer after the other.
pub open spec fn all_ring_pids(chunks: Seq<Vec<u8>>, order: ByteOrder) -> Seq<int>
    decreases chunks.len(),
{
    if chunks.len() == 0 {
        Seq::empty()
    } else {
        all_ring_pids(chunks.drop_last(), order) + ring_pids(chunks.last()@, 0, order)
    }
}

/// Adds the processes that the records in `buf` report to `pids`.
fn push_ring_pids(buf: &[u8], order: ByteOrder, pids: &mut Vec<i32>)
    ensures
        final(pids)@.map_values(|p: i32| p as int) == old(pids)@.map_values(|p: i32| p as int)
            + ring_pids(buf@, 0, order),
{
    let n: usize = buf.len();
    let mut off: usize = 0;
    let ghost goal = pids@.map_values(|p: i32| p as int) + ring_pids(buf@, 0, order);
    while off <= n && n - off >= 8
        invariant
            n == buf@.len(),
            off <= n,
            pids@.map_values(|p: i32| p as int) + ring_pids(buf@, off as int, order) == goal,
        decreases n - off,
    {
        let hdr: u64 = bytes::read_number(buf, off, 8, order);
        let len: usize = (hdr / 0x1_0000_0000_0000) as usize;
        let ghost had = pids@.map_values(|p: i32| p as int);
        let ghost rest = ring_pids(buf@, off + ring_step(buf@, off as int, order), order);
        if len < 8 || n - off < len {
            off += 8;
            continue;
        }
        if len >= 12 {
            let pid: i32 = bytes::read_i32(buf, off + 8, order);
            if pid > 0 {
                pids.push(pid);
                assert(pids@.map_values(|p: i32| p as int) =~= had.push(pid as int));
                assert(had.push(pid as int) + rest =~= had + (seq![pid as int] + rest));
            }
        }
        let step: usize = (len + 7) / 8 * 8;
        if n - off < step {
            assert(rest =~= Seq::empty());
            assert(ring_pids(buf@, n as int, order) =~= Seq::empty());
            off = n;
        } else {
            off += step;
        }
    }
    assert(ring_pids(buf@, off as int, order) =~= Seq::empty());
    assert(pids@.map_values(|p: i32| p as int) =~= goal);
}

/// The processes that the kernel reports in the buffers `chunks`, which were read from the ring
/// buffer; none where nothing is loaded.
pub fn poll_new_pids(ctx: &BpfCtx, chunks: &[Vec<u8>], order: ByteOrder) -> (r: Vec<i32>)
    ensures
        r@.map_values(|p: i32| p as int) == (if ctx.ok {
            all_ring_pids(chunks@, order)
        } else {
            Seq::empty()
        }),
{
    let mut pids: Vec<i32> = Vec::new();
    assert(pids@.map_values(|p: i32| p as int) =~= Seq::empty());
    if !ctx.ok {
        return pids;
    }
    let mut i: usize = 0;
    assert(chunks@.take(0) =~= Seq::empty());
    while i < chunks.len()
        invariant
            i <= chunks@.len(),
            pids@.map_values(|p: i32| p as int) == all_ring_pids(chunks@.take(i as int), order),
        decreases chunks@.len() - i,
    {
        assert(chunks@.take(i + 1).drop_last() =~= chunks@.take(i as int));
        push_ring_pids(chunks[i].as_slice(), order, &mut pids);
        i += 1;
    }
    assert(chunks@.take(i as int) =~= chunks@);
    pids
}

/// A name of at most 15 bytes is handed to the kernel whole, and a longer one by its first 15; a
/// zero always follows.
pub proof fn law_kernel_name(thread: Seq<char>)
    ensures
        ({
            let b = vstd::utf8::encode_utf8(thread);
            let k = kernel_name(thread);
            &&& k.len() == 16
            &&& k[15] == 0
            &&& b.len() <= 15 ==> k.take(b.len() as int) == b && forall|i: int|
                b.len() <= i < 16 ==> k[i] == 0
            &&& b.len() > 15 ==> k.take(15) == b.take(15)
        }),
{
    let b = vstd::utf8::encode_utf8(thread);
    let k = kernel_name(thread);
    if b.len() <= 15 {
        assert(k.take(b.len() as int) =~= b);
    } else {
        assert(k.take(15) =~= b.take(15));
    }
}

/// The kernel is given the same CPUs for a thread as are used elsewhere: for each rule for threads
/// there is one entry, in the order of the rules, with the name of its threads and the mask of its
/// list. `n` counts the rules for threads before rule `i`.
pub proof fn law_kernel_rules(fd: int, rules: Seq<config::RuleView>, i: int)
    requires
        0 <= i < rules.len(),
        rules[i].thread.len() > 0,
    ensures
        ({
            let n = kernel_rules(fd, rules.take(i)).len() as int;
            &&& n < kernel_rules(fd, rules).len()
            &&& kernel_rules(fd, rules)[n] == (UpdateView {
                fd,
                key: kernel_name(rules[i].thread),
                value: cpuset::list_mask(rules[i].cpus),
                flags: INSERT_OR_REPLACE,
            })
        }),
    decreases rules.len(),
{
    let front = rules.drop_last();
    if i == rules.len() - 1 {
        assert(rules.take(i) =~= front);
    } else {
        assert(front.take(i) =~= rules.take(i));
        assert(front[i] == rules[i]);
        law_kernel_rules(fd, front, i);
    }
}

/// Only processes are reported: every number is positive.
pub proof fn law_reported_positive(buf: Seq<u8>, off: int, order: ByteOrder)
    requires
        off >= 0,
    ensures
        forall|i: int|
            0 <= i < ring_pids(buf, off, order).len() ==> #[trigger] ring_pids(buf, off, order)[i]
                > 0,
    decreases
            (if off < buf.len() {
                buf.len() - off
            } else {
                0
            }),
{
    let step = ring_step(buf, off, order);
    if off + 8 <= buf.len() && step > 0 {
        law_reported_positive(buf, off + step, order);
        let rest = ring_pids(buf, off + step, order);
        let all = ring_pids(buf, off, order);
        assert forall|i: int| 0 <= i < all.len() implies #[trigger] all[i] > 0 by {
            if ring_pid(buf, off, order) is Some {
                if i > 0 {
                    assert(all[i] == rest[i - 1]);
                }
            } else {
                assert(all[i] == rest[i]);
            }
        }
    }
}

/// A record that reports the process `pid` stands in `buf` at `at`: its header says that it has 12
/// bytes, and the number of the process stands behind the header.
pub open spec fn reports(buf: Seq<u8>, at: int, pid: int, order: ByteOrder) -> bool {
    &&& ring_record_len(buf, at, order) == 12
    &&& bytes::signed32(bytes::number_at(buf, at + 8, 4, order)) == pid
    &&& pid > 0
}

/// The buffer `buf` holds from `off` on the records that report `pids`, one after the other, each
/// in 16 bytes.
pub open spec fn holds_records(buf: Seq<u8>, off: int, pids: Seq<int>, order: ByteOrder) -> bool {
    &&& buf.len() == off + 16 * pids.len()
    &&& forall|i: int|
        0 <= i < pids.len() ==> reports(buf, off + 16 * i, #[trigger] pids[i], order)
}

/// What the kernel program writes is what is read: the processes of the records in a buffer are
/// found, all of them and in their order.
pub proof fn law_records_read_back(buf: Seq<u8>, off: int, pids: Seq<int>, order: ByteOrder)
    requires
        off >= 0,
        holds_records(buf, off, pids, order),
    ensures
        ring_pids(buf, off, order) == pids,
    decreases pids.len(),
{
    if pids.len() > 0 {
        assert(pids[0] > 0);
        let rest = pids.drop_first();
        let next = off + 16;
        assert forall|i: int| 0 <= i < rest.len() implies reports(
            buf,
            next + 16 * i,
            #[trigger] rest[i],
            order,
        ) by {
            assert(rest[i] == pids[i + 1]);
            assert(next + 16 * i == off + 16 * (i + 1));
        }
        assert(reports(buf, off + 16 * 0, pids[0], order));
        law_records_read_back(buf, off + 16, rest, order);
        assert(ring_step(buf, off, order) == 16);
        assert(seq![pids[0]] + rest =~= pids);
    } else {
        assert(ring_pids(buf, off, order) =~= pids);
    }
}

} // verus!
