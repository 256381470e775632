//! What is handed to the kernel, and what comes back from it.

use vstd::prelude::*;

use crate::bpf;
use crate::bpf::loading;
use crate::bpf::loading::{
    Answer, AnswerView, Hook, Probe, Request, RequestView, Stage,
};
use crate::bpf::{BpfCtx, MapUpdate};
use crate::bytes;
use crate::bytes::ByteOrder;
use crate::config;
use crate::cpuset;
use crate::laws::texts;
use crate::numeral;
use crate::text;

verus! {

/// The rules that the kernel gets: one for each rule for threads, in their order, with the name
/// as the kernel keeps it and the CPUs; rules for whole packages are left out.
pub proof fn law_kernel_rules_split(
    fd: int,
    a: Seq<config::RuleView>,
    b: Seq<config::RuleView>,
    one: config::RuleView,
)
    ensures
        bpf::kernel_rules(fd, a + b) == bpf::kernel_rules(fd, a) + bpf::kernel_rules(fd, b),
        one.thread.len() == 0 ==> bpf::kernel_rules(fd, seq![one]).len() == 0,
        one.thread.len() > 0 ==> {
            let all = bpf::kernel_rules(fd, seq![one]);
            &&& all.len() == 1
            &&& all[0].fd == fd
            &&& all[0].key == bpf::kernel_name(one.thread)
            &&& all[0].value == cpuset::list_mask(one.cpus)
            &&& all[0].flags == 0
        },
    decreases b.len(),
{
    let none = Seq::<config::RuleView>::empty();
    assert(seq![one].drop_last() =~= none);
    assert(bpf::kernel_rules(fd, none) =~= Seq::empty());
    if b.len() == 0 {
        assert(a + b =~= a);
    } else {
        law_kernel_rules_split(fd, a, b.drop_last(), one);
        assert((a + b).drop_last() =~= a + b.drop_last());
        assert((a + b).last() == b.last());
    }
}

/// A record of the ring buffer has its length in the highest two bytes of its head of eight.
pub proof fn law_record_length(buf: Seq<u8>, off: int)
    requires
        0 <= off,
        off + 8 <= buf.len(),
    ensures
        bpf::ring_record_len(buf, off, ByteOrder::Little) == buf[off + 6] + 256 * buf[off + 7],
        bpf::ring_record_len(buf, off, ByteOrder::Big) == 256 * buf[off] + buf[off + 1],
{
    crate::laws::numbers::law_eight_bytes(buf, off);
    crate::laws::numbers::law_bytes(buf, off);
    crate::laws::numbers::law_bytes(buf, off + 4);
}

/// A record that is there as a whole, with room for a number, reports that number where it is
/// positive. The next record stands behind it at a multiple of eight bytes. Where the record is
/// shorter than its head or is not there as a whole, the next one is looked for eight bytes on.
pub proof fn law_ring_record(buf: Seq<u8>, off: int, len: int, step: int, order: ByteOrder)
    requires
        0 <= off,
        off + 8 <= buf.len(),
        bpf::ring_record_len(buf, off, order) == len,
        len <= step < len + 8,
        step % 8 == 0,
    ensures
        len < 8 || off + len > buf.len() ==> bpf::ring_pids(buf, off, order) == bpf::ring_pids(
            buf,
            off + 8,
            order,
        ),
        8 <= len < 12 && off + len <= buf.len() ==> bpf::ring_pids(buf, off, order)
            == bpf::ring_pids(buf, off + step, order),
        len >= 12 && off + len <= buf.len() && bytes::signed32(
            bytes::number_at(buf, off + 8, 4, order),
        ) <= 0 ==> bpf::ring_pids(buf, off, order) == bpf::ring_pids(buf, off + step, order),
        len >= 12 && off + len <= buf.len() && bytes::signed32(
            bytes::number_at(buf, off + 8, 4, order),
        ) > 0 ==> bpf::ring_pids(buf, off, order) == seq![
            bytes::signed32(bytes::number_at(buf, off + 8, 4, order)),
        ] + bpf::ring_pids(buf, off + step, order),
{
    assert((len + 7) / 8 * 8 == step);
}

/// Behind the last whole head there are no records, and buffers report one after the other.
pub proof fn law_buffers(
    buf: Seq<u8>,
    off: int,
    a: Seq<Vec<u8>>,
    b: Seq<Vec<u8>>,
    one: Vec<u8>,
    order: ByteOrder,
)
    ensures
        off + 8 > buf.len() ==> bpf::ring_pids(buf, off, order).len() == 0,
        bpf::all_ring_pids(a + b, order) == bpf::all_ring_pids(a, order) + bpf::all_ring_pids(
            b,
            order,
        ),
        bpf::all_ring_pids(seq![one], order) == bpf::ring_pids(one@, 0, order),
    decreases b.len(),
{
    let none = Seq::<Vec<u8>>::empty();
    assert(seq![one].drop_last() =~= none);
    assert(bpf::all_ring_pids(none, order) =~= Seq::empty());
    assert(bpf::all_ring_pids(seq![one], order) =~= bpf::ring_pids(one@, 0, order));
    if b.len() == 0 {
        assert(a + b =~= a);
        assert(bpf::all_ring_pids(a, order) + bpf::all_ring_pids(b, order)
            =~= bpf::all_ring_pids(a, order));
    } else {
        law_buffers(buf, off, a, b.drop_last(), one, order);
        assert((a + b).drop_last() =~= a + b.drop_last());
        assert((a + b).last() == b.last());
        assert(bpf::all_ring_pids(a + b, order) =~= bpf::all_ring_pids(a, order)
            + bpf::all_ring_pids(b, order));
    }
}

/// Numbers that are not negative are descriptors; among several they keep their order.
pub proof fn law_descriptors(a: Seq<i32>, b: Seq<i32>, fd: i32)
    ensures
        bpf::descriptors(a + b) == bpf::descriptors(a) + bpf::descriptors(b),
        fd >= 0 ==> bpf::descriptors(seq![fd]) == seq![fd],
        fd < 0 ==> bpf::descriptors(seq![fd]).len() == 0,
{
    let keep = |x: i32| x >= 0;
    Seq::filter_distributes_over_add(a, b, keep);
    reveal(Seq::filter);
    let one = seq![fd];
    assert(one.drop_last() =~= Seq::<i32>::empty());
    assert(one.drop_last().filter(keep) =~= Seq::<i32>::empty());
    assert(one.last() == fd);
    assert(Seq::<i32>::empty().push(fd) =~= one);
}

/// What is loaded is closed from the events over the programs to the maps; what is not loaded has
/// no descriptor. Rules can be taken just where all is well and their map is there.
pub proof fn law_loaded_parts(ctx: BpfCtx)
    ensures
        ctx.fds().len() == 7,
        ctx.fds()[0] == ctx.pe_fd3 && ctx.fds()[1] == ctx.pe_fd2 && ctx.fds()[2] == ctx.pe_fd,
        ctx.fds()[3] == ctx.prog2_fd && ctx.fds()[4] == ctx.prog_fd,
        ctx.fds()[5] == ctx.rule_map_fd && ctx.fds()[6] == ctx.ring_fd,
        ctx.takes_rules() <==> ctx.ok && ctx.rule_map_fd >= 0,
        ({
            let none = bpf::nothing_loaded();
            &&& !none.ok
            &&& none.ring_fd == -1 && none.rule_map_fd == -1
            &&& none.prog_fd == -1 && none.prog2_fd == -1
            &&& none.pe_fd == -1 && none.pe_fd2 == -1 && none.pe_fd3 == -1
        }),
{
}

/// The word `w` is the instruction with the code `op` on the registers `dst` and `src`, with an
/// offset and a number: eight bits, twice four, 16 and 32, from the lowest on.
pub open spec fn instruction(w: u64, op: int, dst: int, src: int, off: int, imm: int) -> bool {
    let up = if off < 0 {
        off + 65536
    } else {
        off
    };
    let top = if imm < 0 {
        imm + 4294967296
    } else {
        imm
    };
    w == op + 256 * dst + 4096 * src + 65536 * up + 4294967296 * top
}

/// The first word of the instruction that puts a map into a register.
proof fn lemma_load_map(fd: i32)
    requires
        fd >= 0,
    ensures
        instruction(loading::load_map(fd), 0x18, 1, 1, 0, fd as int),
{
    let x = fd as u64;
    let w = 0x18u64 | (1u64 << 8) | (1u64 << 12) | ((x & 0xFFFF_FFFF) << 32);
    assert(w % 4294967296 == 0x1118 && w / 4294967296 == x) by (bit_vector)
        requires
            x < 0x8000_0000u64,
            w == 0x18u64 | (1u64 << 8) | (1u64 << 12) | ((x & 0xFFFF_FFFF) << 32),
    ;
}

/// The reporting program, instruction by instruction: it asks for the thread and its process
/// (call 14), keeps the process in the four bytes below the frame, and writes these to the ring
/// buffer (call 130).
pub proof fn law_report_program(ring: i32)
    requires
        ring >= 0,
    ensures
        ({
            let p = loading::report_program(ring);
            &&& p.len() == 12
            &&& instruction(p[0], 0xbf, 6, 1, 0, 0)
            &&& instruction(p[1], 0x85, 0, 0, 0, 14)
            &&& instruction(p[2], 0x77, 0, 0, 0, 32)
            &&& instruction(p[3], 0x63, 10, 0, -4, 0)
            &&& instruction(p[4], 0x18, 1, 1, 0, ring as int)
            &&& p[5] == 0
            &&& instruction(p[6], 0xbf, 2, 10, 0, 0)
            &&& instruction(p[7], 0x07, 2, 0, 0, -4)
            &&& instruction(p[8], 0xb7, 3, 0, 0, 4)
            &&& instruction(p[9], 0xb7, 4, 0, 0, 0)
            &&& instruction(p[10], 0x85, 0, 0, 0, 130)
            &&& instruction(p[11], 0x95, 0, 0, 0, 0)
        }),
{
    lemma_load_map(ring);
}

/// The binding program, instruction by instruction: it clears 16 bytes and reads the name of the
/// thread into them (call 16), looks it up in the map (call 1), keeps the CPUs that it finds below
/// the frame, asks for the thread (call 35) and puts it on them (call 215). Where there is nothing
/// it jumps to its end.
pub proof fn law_bind_program(rules: i32)
    requires
        rules >= 0,
    ensures
        ({
            let p = loading::bind_program(rules);
            &&& p.len() == 25
            &&& instruction(p[0], 0xb7, 1, 0, 0, 0)
            &&& instruction(p[1], 0x7b, 10, 1, -8, 0)
            &&& instruction(p[2], 0x7b, 10, 1, -16, 0)
            &&& instruction(p[3], 0xbf, 6, 10, 0, 0)
            &&& instruction(p[4], 0x07, 6, 0, 0, -16)
            &&& instruction(p[5], 0xbf, 1, 6, 0, 0)
            &&& instruction(p[6], 0xb7, 2, 0, 0, 16)
            &&& instruction(p[7], 0x85, 0, 0, 0, 16)
            &&& instruction(p[8], 0x18, 1, 1, 0, rules as int)
            &&& p[9] == 0
            &&& instruction(p[10], 0xbf, 2, 6, 0, 0)
            &&& instruction(p[11], 0x85, 0, 0, 0, 1)
            &&& instruction(p[12], 0x15, 0, 0, 23 - 13, 0)
            &&& instruction(p[13], 0x79, 1, 0, 0, 0)
            &&& instruction(p[14], 0x7b, 10, 1, -24, 0)
            &&& instruction(p[15], 0x15, 1, 0, 23 - 16, 0)
            &&& instruction(p[16], 0x85, 0, 0, 0, 35)
            &&& instruction(p[17], 0x15, 0, 0, 23 - 18, 0)
            &&& instruction(p[18], 0xbf, 3, 10, 0, 0)
            &&& instruction(p[19], 0x07, 3, 0, 0, -24)
            &&& instruction(p[20], 0xbf, 1, 0, 0, 0)
            &&& instruction(p[21], 0xb7, 2, 0, 0, 8)
            &&& instruction(p[22], 0x85, 0, 0, 0, 215)
            &&& instruction(p[23], 0xb7, 0, 0, 0, 0)
            &&& instruction(p[24], 0x95, 0, 0, 0, 0)
        }),
{
    lemma_load_map(rules);
}

/// The maps: a ring buffer of 4096 bytes, and a table with 1024 places for names of 16 bytes and
/// masks of eight.
pub proof fn law_maps()
    ensures
        loading::ring_attr().kind == 27,
        loading::ring_attr().key_size == 0 && loading::ring_attr().value_size == 0,
        loading::ring_attr().max_entries == 4096 && loading::ring_attr().flags == 0,
        loading::rule_attr().kind == 1,
        loading::rule_attr().key_size == 16 && loading::rule_attr().value_size == 8,
        loading::rule_attr().max_entries == 1024 && loading::rule_attr().flags == 0,
{
}

/// An event is read from its file, and opened as a tracepoint with attributes of 64 bytes.
pub proof fn law_event_of_hook(id: u64, i: int)
    ensures
        loading::id_path(Hook::Exec) == "/sys/kernel/tracing/events/sched/sched_process_exec/id"@,
        loading::id_path(Hook::Fork) == "/sys/kernel/tracing/events/sched/sched_process_fork/id"@,
        loading::id_path(Hook::ExecBind) == loading::id_path(Hook::Exec),
        loading::event_attr(id).len() == 16,
        loading::event_attr(id)[0] == 2 + 64 * 4294967296,
        loading::event_attr(id)[1] == id,
        2 <= i < 16 ==> loading::event_attr(id)[i] == 0,
{
    reveal_strlit("/sys/kernel/tracing/events/sched/");
    reveal_strlit("sched_process_exec");
    reveal_strlit("sched_process_fork");
    reveal_strlit("/id");
    reveal_strlit("/sys/kernel/tracing/events/sched/sched_process_exec/id");
    reveal_strlit("/sys/kernel/tracing/events/sched/sched_process_fork/id");
    assert(loading::id_path(Hook::Exec)
        =~= "/sys/kernel/tracing/events/sched/sched_process_exec/id"@);
    assert(loading::id_path(Hook::Fork)
        =~= "/sys/kernel/tracing/events/sched/sched_process_fork/id"@);
    assert(2u64 | (64u64 << 32) == 274877906946u64) by (bit_vector);
}

/// The number of an event is the number in its file, with white space round it or not; without
/// one it is 0.
pub proof fn law_event_number(front: Seq<char>, number: Seq<char>, back: Seq<char>)
    requires
        texts::blank(front),
        texts::blank(back),
        number.len() > 0,
        !text::white(number[0]),
        !text::white(number.last()),
    ensures
        loading::event_id(Some(front + number + back)) == (match numeral::unsigned_value(
            number,
            18446744073709551615,
        ) {
            Some(n) => n,
            None => 0,
        }),
        loading::event_id(Some(front)) == 0,
        loading::event_id(None) == 0,
{
    texts::law_trimmed(front, number, back);
    texts::law_trimmed_blank(front);
    crate::laws::numbers::law_unsigned(Seq::empty(), 18446744073709551615);
}

/// What is asked first, and what is asked of the kernel while programs are loaded: the two maps,
/// the reporting program on the ring buffer, and the binding program on the map with the rules,
/// as a program for events and, where that is refused, as one for tracepoints.
pub proof fn law_asked_for_programs(ctx: BpfCtx)
    ensures
        loading::asked(loading::start(true)) == RequestView::CreateMap(loading::ring_attr()),
        loading::asked(loading::start(false)) == RequestView::Done(bpf::nothing_loaded()),
        loading::asked(Probe { stage: Stage::RuleMap, ctx }) == RequestView::CreateMap(
            loading::rule_attr(),
        ),
        loading::asked(Probe { stage: Stage::Report, ctx }) == RequestView::LoadProgram(
            5,
            loading::report_program(ctx.ring_fd),
        ),
        loading::asked(Probe { stage: Stage::Bind, ctx }) == RequestView::LoadProgram(
            7,
            loading::bind_program(ctx.rule_map_fd),
        ),
        loading::asked(Probe { stage: Stage::BindAgain, ctx }) == RequestView::LoadProgram(
            5,
            loading::bind_program(ctx.rule_map_fd),
        ),
        loading::asked(Probe { stage: Stage::Finished, ctx }) == RequestView::Done(ctx),
{
}

/// What is asked of the kernel while an event is set up: its number, the event with that number,
/// the program that is to run at it, and that it is switched on; or that it is closed.
pub proof fn law_asked_for_events(ctx: BpfCtx, hook: Hook, id: u64, fd: i32)
    ensures
        loading::asked(Probe { stage: Stage::Id(hook), ctx }) == RequestView::ReadFile(
            loading::id_path(hook),
        ),
        loading::asked(Probe { stage: Stage::Open(hook, id), ctx }) == RequestView::OpenEvent(
            loading::event_attr(id),
        ),
        hook is Exec || hook is Fork ==> loading::asked(
            Probe { stage: Stage::Attach(hook, fd), ctx },
        ) == RequestView::SetProgram(fd, ctx.prog_fd),
        hook is ExecBind ==> loading::asked(Probe { stage: Stage::Attach(hook, fd), ctx })
            == RequestView::SetProgram(fd, ctx.prog2_fd),
        loading::asked(Probe { stage: Stage::Enable(hook, fd), ctx }) == RequestView::EnableEvent(
            fd,
        ),
        loading::asked(Probe { stage: Stage::Detach(hook, fd), ctx }) == RequestView::Close(
            seq![fd],
        ),
{
}

/// Where one of the maps or the reporting program is refused, the maps that were made are closed,
/// and nothing is loaded.
pub proof fn law_refused_from_the_start(ring: i32, rules: i32, no: i32, any: AnswerView)
    requires
        ring >= 0 && rules >= 0 && no < 0,
    ensures
        ({
            let p = loading::start(true);
            let p1 = loading::after(p, AnswerView::Number(ring));
            let p2 = loading::after(p1, AnswerView::Number(rules));
            let a = loading::after(p, AnswerView::Number(no));
            let b = loading::after(p1, AnswerView::Number(no));
            let c = loading::after(p2, AnswerView::Number(no));
            &&& loading::asked(a) == RequestView::Done(bpf::nothing_loaded())
            &&& loading::asked(b) == RequestView::Close(seq![ring])
            &&& loading::asked(loading::after(b, any)) == RequestView::Done(bpf::nothing_loaded())
            &&& loading::asked(c) == RequestView::Close(seq![ring, rules])
            &&& loading::asked(loading::after(c, any)) == RequestView::Done(bpf::nothing_loaded())
        }),
{
    law_descriptors(seq![ring], seq![rules], ring);
    law_descriptors(seq![ring], seq![rules], rules);
    law_descriptors(seq![ring], seq![(-1) as i32], (-1) as i32);
    assert(seq![ring] + seq![rules] =~= seq![ring, rules]);
    assert(seq![ring] + seq![(-1) as i32] =~= seq![ring, (-1) as i32]);
    assert(bpf::descriptors(seq![ring, (-1) as i32]) =~= seq![ring]);
}

/// What follows an event, with its descriptor or -1 kept: after the start of programs forks are
/// set up, after these the binding at the start of programs, and after that all is done.
pub open spec fn goes_on(p: Probe, hook: Hook, ctx: BpfCtx, fd: i32) -> bool {
    match hook {
        Hook::Exec => p.stage == Stage::Id(Hook::Fork) && p.ctx == (BpfCtx { pe_fd: fd, ..ctx }),
        Hook::Fork => p.stage == Stage::Id(Hook::ExecBind) && p.ctx == (BpfCtx {
            pe_fd2: fd,
            ..ctx
        }),
        Hook::ExecBind => p.stage == Stage::Finished && p.ctx == (BpfCtx {
            ok: true,
            pe_fd3: fd,
            ..ctx
        }),
    }
}

/// An event that cannot be set up is left out, with its descriptor closed where it has one, and
/// what else is loaded stays. Switching it on is asked for once the program is attached, and is
/// not asked for again.
pub proof fn law_event_set_up(
    ctx: BpfCtx,
    hook: Hook,
    id: u64,
    fd: i32,
    no: i32,
    yes: i32,
    text: Option<Seq<char>>,
    any: AnswerView,
)
    requires
        no < 0,
        yes >= 0,
    ensures
        loading::event_id(text) == 0 ==> goes_on(
            loading::after(Probe { stage: Stage::Id(hook), ctx }, AnswerView::Text(text)),
            hook,
            ctx,
            (-1) as i32,
        ),
        loading::event_id(text) != 0 ==> loading::after(
            Probe { stage: Stage::Id(hook), ctx },
            AnswerView::Text(text),
        ) == (Probe { stage: Stage::Open(hook, loading::event_id(text) as u64), ctx }),
        goes_on(
            loading::after(Probe { stage: Stage::Open(hook, id), ctx }, AnswerView::Number(no)),
            hook,
            ctx,
            (-1) as i32,
        ),
        loading::after(Probe { stage: Stage::Open(hook, id), ctx }, AnswerView::Number(yes)) == (
        Probe { stage: Stage::Attach(hook, yes), ctx }),
        loading::after(Probe { stage: Stage::Attach(hook, fd), ctx }, AnswerView::Number(no)) == (
        Probe { stage: Stage::Detach(hook, fd), ctx }),
        loading::after(Probe { stage: Stage::Attach(hook, fd), ctx }, AnswerView::Number(yes)) == (
        Probe { stage: Stage::Enable(hook, fd), ctx }),
        goes_on(loading::after(Probe { stage: Stage::Enable(hook, fd), ctx }, any), hook, ctx, fd),
        goes_on(loading::after(Probe { stage: Stage::Detach(hook, fd), ctx }, any), hook, ctx, (-1) as i32),
{
}

/// The maps are kept as they are made. Where a map or the reporting program is refused, what there
/// is of the maps is closed, and nothing is loaded then.
pub proof fn law_maps_made(ctx: BpfCtx, yes: i32, no: i32, any: AnswerView)
    requires
        no < 0,
        yes >= 0,
    ensures
        loading::after(Probe { stage: Stage::RingMap, ctx }, AnswerView::Number(yes)) == (Probe {
            stage: Stage::RuleMap,
            ctx: BpfCtx { ring_fd: yes, ..ctx },
        }),
        loading::after(Probe { stage: Stage::RingMap, ctx }, AnswerView::Number(no)) == (Probe {
            stage: Stage::Finished,
            ctx: bpf::nothing_loaded(),
        }),
        loading::after(Probe { stage: Stage::RuleMap, ctx }, AnswerView::Number(yes)) == (Probe {
            stage: Stage::Report,
            ctx: BpfCtx { rule_map_fd: yes, ..ctx },
        }),
        loading::after(Probe { stage: Stage::RuleMap, ctx }, AnswerView::Number(no)) == (Probe {
            stage: Stage::GiveUp,
            ctx,
        }),
        loading::after(Probe { stage: Stage::Report, ctx }, AnswerView::Number(no)) == (Probe {
            stage: Stage::GiveUp,
            ctx,
        }),
        loading::asked(Probe { stage: Stage::GiveUp, ctx }) == RequestView::Close(
            bpf::descriptors(seq![ctx.ring_fd]) + bpf::descriptors(seq![ctx.rule_map_fd]),
        ),
        loading::after(Probe { stage: Stage::GiveUp, ctx }, any) == (Probe {
            stage: Stage::Finished,
            ctx: bpf::nothing_loaded(),
        }),
{
    law_descriptors(seq![ctx.ring_fd], seq![ctx.rule_map_fd], yes);
    assert(seq![ctx.ring_fd] + seq![ctx.rule_map_fd] =~= seq![ctx.ring_fd, ctx.rule_map_fd]);
}

/// The binding program is loaded as either kind, and the events are set up after it.
pub proof fn law_binding_program_loaded(ctx: BpfCtx, yes: i32, no: i32)
    requires
        no < 0,
        yes >= 0,
    ensures
        loading::after(Probe { stage: Stage::Report, ctx }, AnswerView::Number(yes)) == (Probe {
            stage: Stage::Bind,
            ctx: BpfCtx { prog_fd: yes, ..ctx },
        }),
        loading::after(Probe { stage: Stage::Bind, ctx }, AnswerView::Number(yes)) == (Probe {
            stage: Stage::Id(Hook::Exec),
            ctx: BpfCtx { prog2_fd: yes, ..ctx },
        }),
        loading::after(Probe { stage: Stage::Bind, ctx }, AnswerView::Number(no)) == (Probe {
            stage: Stage::BindAgain,
            ctx,
        }),
        loading::after(Probe { stage: Stage::BindAgain, ctx }, AnswerView::Number(yes)) == (Probe {
            stage: Stage::Id(Hook::Exec),
            ctx: BpfCtx { prog2_fd: yes, ..ctx },
        }),
        loading::after(Probe { stage: Stage::BindAgain, ctx }, AnswerView::Number(no)) == (Probe {
            stage: Stage::Finished,
            ctx: BpfCtx { ok: true, ..ctx },
        }),
{
}

/// An answer of the other kind counts as a refusal, and once all is done nothing changes.
pub proof fn law_other_answers(p: Probe, n: i32, s: Option<Seq<char>>, any: AnswerView)
    ensures
        !(p.stage is Id) ==> loading::after(p, AnswerView::Text(s)) == loading::after(
            p,
            AnswerView::Number((-1) as i32),
        ),
        p.stage is Id ==> loading::after(p, AnswerView::Number(n)) == loading::after(
            p,
            AnswerView::Text(None),
        ),
        p.stage is Finished ==> loading::after(p, any) == p,
{
}

/// Updates, requests and answers say what they hold.
pub proof fn law_kernel_says(
    u: MapUpdate,
    v: Seq<MapUpdate>,
    r: Request,
    a: Answer,
    i: int,
)
    ensures
        u@.fd == u.fd && u@.key == u.key@ && u@.value == u.value && u@.flags == u.flags,
        bpf::update_views(v).len() == v.len(),
        0 <= i < v.len() ==> bpf::update_views(v)[i] == v[i]@,
        r matches Request::CreateMap(m) ==> r@ == RequestView::CreateMap(m),
        r matches Request::LoadProgram(k, w) ==> r@ == RequestView::LoadProgram(k, w@),
        r matches Request::ReadFile(p) ==> r@ == RequestView::ReadFile(p@),
        r matches Request::OpenEvent(w) ==> r@ == RequestView::OpenEvent(w@),
        r matches Request::SetProgram(e, p) ==> r@ == RequestView::SetProgram(e, p),
        r matches Request::EnableEvent(e) ==> r@ == RequestView::EnableEvent(e),
        r matches Request::Close(w) ==> r@ == RequestView::Close(w@),
        r matches Request::Done(c) ==> r@ == RequestView::Done(c),
        a matches Answer::Number(n) ==> a@ == AnswerView::Number(n),
        a matches Answer::Text(Some(s)) ==> a@ == AnswerView::Text(Some(s@)),
        a matches Answer::Text(None) ==> a@ == AnswerView::Text(None),
{
}

} // verus!
