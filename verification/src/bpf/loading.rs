//! Loading the maps and programs into the kernel: which request comes next, and what the answer to
//! it leads to.

use vstd::prelude::*;

use crate::bpf;
use crate::bpf::{bpf_fail, BpfCtx, NO_FD};
use crate::numeral;
use crate::text;

verus! {

/// What a map is made of.
#[derive(Clone, Copy, Debug, PartialEq, Eq, Structural)]
pub struct MapAttr {
    pub kind: u32,
    pub key_size: u32,
    pub value_size: u32,
    pub max_entries: u32,
    pub flags: u32,
}

/// An event at which a program is to run.
#[derive(Clone, Copy, Debug, PartialEq, Eq, Structural)]
pub enum Hook {
    /// A process starts a program: it is reported.
    Exec,
    /// A process forks: it is reported.
    Fork,
    /// A process starts a program: it is put on its CPUs.
    ExecBind,
}

/// What is to be asked of the kernel next.
#[derive(Clone, Copy, Debug, PartialEq, Eq, Structural)]
pub enum Stage {
    /// Make the ring buffer.
    RingMap,
    /// Make the map with the rules.
    RuleMap,
    /// Load the program that reports a process.
    Report,
    /// Load the program that puts a process on its CPUs.
    Bind,
    /// Load it as a program of another kind.
    BindAgain,
    /// Read the number of the event.
    Id(Hook),
    /// Open the event with the number.
    Open(Hook, u64),
    /// Let the program run at the event with the descriptor.
    Attach(Hook, i32),
    /// Switch the event on.
    Enable(Hook, i32),
    /// Close the event.
    Detach(Hook, i32),
    /// Close everything: nothing is loaded.
    GiveUp,
    /// Nothing.
    Finished,
}

/// How far the loading has come, and the descriptors that it has.
#[derive(Clone, Copy, Debug, PartialEq, Eq, Structural)]
pub struct Probe {
    pub stage: Stage,
    pub ctx: BpfCtx,
}

/// A request to the kernel.
pub enum Request {
    /// Make a map.
    CreateMap(MapAttr),
    /// Load a program of the kind, from its instructions.
    LoadProgram(u32, Vec<u64>),
    /// Read the file.
    ReadFile(String),
    /// Open an event with these attributes.
    OpenEvent(Vec<u64>),
    /// Let the second, a program, run at the first, an event.
    SetProgram(i32, i32),
    /// Switch the event on.
    EnableEvent(i32),
    /// Close the descriptors, one after the other.
    Close(Vec<i32>),
    /// Nothing more: this is what is loaded.
    Done(BpfCtx),
}

/// What a `Request` says.
pub enum RequestView {
    CreateMap(MapAttr),
    LoadProgram(u32, Seq<u64>),
    ReadFile(Seq<char>),
    OpenEvent(Seq<u64>),
    SetProgram(i32, i32),
    EnableEvent(i32),
    Close(Seq<i32>),
    Done(BpfCtx),
}

impl View for Request {
    type V = RequestView;

    open spec fn view(&self) -> RequestView {
        match self {
            Request::CreateMap(m) => RequestView::CreateMap(*m),
            Request::LoadProgram(kind, words) => RequestView::LoadProgram(*kind, words@),
            Request::ReadFile(path) => RequestView::ReadFile(path@),
            Request::OpenEvent(attr) => RequestView::OpenEvent(attr@),
            Request::SetProgram(event, prog) => RequestView::SetProgram(*event, *prog),
            Request::EnableEvent(event) => RequestView::EnableEvent(*event),
            Request::Close(fds) => RequestView::Close(fds@),
            Request::Done(ctx) => RequestView::Done(*ctx),
        }
    }
}

/// The answer to a request.
pub enum Answer {
    /// A descriptor or 0; a negative number where the kernel refused.
    Number(i32),
    /// The text of a file, where it could be read.
    Text(Option<String>),
}

/// What an `Answer` says.
pub enum AnswerView {
    Number(i32),
    Text(Option<Seq<char>>),
}

impl View for Answer {
    type V = AnswerView;

    open spec fn view(&self) -> AnswerView {
        match self {
            Answer::Number(n) => AnswerView::Number(*n),
            Answer::Text(Some(s)) => AnswerView::Text(Some(s@)),
            Answer::Text(None) => AnswerView::Text(None),
        }
    }
}

/// A map that is a ring buffer.
pub const RING_BUFFER: u32 = 27;

/// A map that is a hash table.
pub const HASH_TABLE: u32 = 1;

/// A program that runs at a tracepoint.
pub const TRACEPOINT: u32 = 5;

/// A program that runs at a perf event.
pub const PERF_EVENT: u32 = 7;

/// The attributes of the ring buffer.
pub open spec fn ring_attr() -> MapAttr {
    MapAttr { kind: RING_BUFFER, key_size: 0, value_size: 0, max_entries: 4096, flags: 0 }
}

/// The attributes of the map with the rules: from the 16 bytes of a name to the 8 of a mask.
pub open spec fn rule_attr() -> MapAttr {
    MapAttr { kind: HASH_TABLE, key_size: 16, value_size: 8, max_entries: 1024, flags: 0 }
}

/// The instruction that loads the map with the descriptor `fd` into the first argument.
pub open spec fn load_map(fd: i32) -> u64 {
    0x18u64 | (1u64 << 8) | (1u64 << 12) | ((fd as u64 & 0xFFFF_FFFF) << 32)
}

/// The program that writes the number of the process to the ring buffer `ring`.
pub open spec fn report_program(ring: i32) -> Seq<u64> {
    seq![
        0x00000000000016bf,
        0x0000000e00000085,
        0x0000002000000077,
        0x00000000fffc0a63,
        load_map(ring),
        0x0000000000000000,
        0x000000000000a2bf,
        0xfffffffc00000207,
        0x00000004000003b7,
        0x00000000000004b7,
        0x0000008200000085,
        0x0000000000000095,
    ]
}

/// The program that looks the thread up in the map `rules` and puts it on the CPUs found there.
pub open spec fn bind_program(rules: i32) -> Seq<u64> {
    seq![
        0x00000000000001b7,
        0x00000000fff81a7b,
        0x00000000fff01a7b,
        0x000000000000a6bf,
        0xfffffff000000607,
        0x00000000000061bf,
        0x00000010000002b7,
        0x0000001000000085,
        load_map(rules),
        0x0000000000000000,
        0x00000000000062bf,
        0x0000000100000085,
        0x00000000000a0015,
        0x0000000000000179,
        0x00000000ffe81a7b,
        0x0000000000070115,
        0x0000002300000085,
        0x0000000000050015,
        0x000000000000a3bf,
        0xffffffe800000307,
        0x00000000000001bf,
        0x00000008000002b7,
        0x000000d700000085,
        0x00000000000000b7,
        0x0000000000000095,
    ]
}

/// The name of the tracepoint of a hook.
pub open spec fn hook_name(hook: Hook) -> Seq<char> {
    match hook {
        Hook::Exec => "sched_process_exec"@,
        Hook::Fork => "sched_process_fork"@,
        Hook::ExecBind => "sched_process_exec"@,
    }
}

/// The file with the number of the tracepoint of a hook.
pub open spec fn id_path(hook: Hook) -> Seq<char> {
    "/sys/kernel/tracing/events/sched/"@ + hook_name(hook) + "/id"@
}

/// The number in the text of such a file; 0 where there is none.
pub open spec fn event_id(s: Option<Seq<char>>) -> int {
    match s {
        Some(t) => match numeral::unsigned_value(text::trimmed(t), u64::MAX as int) {
            Some(n) => n,
            None => 0,
        },
        None => 0,
    }
}

/// The attributes of the tracepoint event with the number `id`.
pub open spec fn event_attr(id: u64) -> Seq<u64> {
    Seq::new(
        16,
        |i: int|
            if i == 0 {
                2u64 | (64u64 << 32)
            } else if i == 1 {
                id
            } else {
                0u64
            },
    )
}

/// The program that runs at a hook.
pub open spec fn hook_program(hook: Hook, ctx: BpfCtx) -> i32 {
    match hook {
        Hook::Exec => ctx.prog_fd,
        Hook::Fork => ctx.prog_fd,
        Hook::ExecBind => ctx.prog2_fd,
    }
}

/// What is asked of the kernel at `p`.
pub open spec fn asked(p: Probe) -> RequestView {
    match p.stage {
        Stage::RingMap => RequestView::CreateMap(ring_attr()),
        Stage::RuleMap => RequestView::CreateMap(rule_attr()),
        Stage::Report => RequestView::LoadProgram(TRACEPOINT, report_program(p.ctx.ring_fd)),
        Stage::Bind => RequestView::LoadProgram(PERF_EVENT, bind_program(p.ctx.rule_map_fd)),
        Stage::BindAgain => RequestView::LoadProgram(TRACEPOINT, bind_program(p.ctx.rule_map_fd)),
        Stage::Id(hook) => RequestView::ReadFile(id_path(hook)),
        Stage::Open(hook, id) => RequestView::OpenEvent(event_attr(id)),
        Stage::Attach(hook, fd) => RequestView::SetProgram(fd, hook_program(hook, p.ctx)),
        Stage::Enable(hook, fd) => RequestView::EnableEvent(fd),
        Stage::Detach(hook, fd) => RequestView::Close(seq![fd]),
        Stage::GiveUp => RequestView::Close(
            bpf::descriptors(seq![p.ctx.ring_fd, p.ctx.rule_map_fd]),
        ),
        Stage::Finished => RequestView::Done(p.ctx),
    }
}

/// The number in an answer; a text is no number, as if the kernel had refused.
pub open spec fn number_in(a: AnswerView) -> i32 {
    match a {
        AnswerView::Number(n) => n,
        AnswerView::Text(_) => NO_FD,
    }
}

/// The text in an answer, where there is one.
pub open spec fn text_in(a: AnswerView) -> Option<Seq<char>> {
    match a {
        AnswerView::Number(_) => None,
        AnswerView::Text(s) => s,
    }
}

/// After the hook `hook`, which got the event `fd`, comes the next one.
pub open spec fn hooked(hook: Hook, ctx: BpfCtx, fd: i32) -> Probe {
    match hook {
        Hook::Exec => Probe { stage: Stage::Id(Hook::Fork), ctx: BpfCtx { pe_fd: fd, ..ctx } },
        Hook::Fork => Probe { stage: Stage::Id(Hook::ExecBind), ctx: BpfCtx { pe_fd2: fd, ..ctx } },
        Hook::ExecBind => Probe {
            stage: Stage::Finished,
            ctx: BpfCtx { ok: true, pe_fd3: fd, ..ctx },
        },
    }
}

/// What the answer `a` leads to at `p`.
pub open spec fn after(p: Probe, a: AnswerView) -> Probe {
    let n = number_in(a);
    match p.stage {
        Stage::RingMap => if n < 0 {
            Probe { stage: Stage::Finished, ctx: bpf::nothing_loaded() }
        } else {
            Probe { stage: Stage::RuleMap, ctx: BpfCtx { ring_fd: n, ..p.ctx } }
        },
        Stage::RuleMap => if n < 0 {
            Probe { stage: Stage::GiveUp, ctx: p.ctx }
        } else {
            Probe { stage: Stage::Report, ctx: BpfCtx { rule_map_fd: n, ..p.ctx } }
        },
        Stage::Report => if n < 0 {
            Probe { stage: Stage::GiveUp, ctx: p.ctx }
        } else {
            Probe { stage: Stage::Bind, ctx: BpfCtx { prog_fd: n, ..p.ctx } }
        },
        Stage::Bind => if n < 0 {
            Probe { stage: Stage::BindAgain, ctx: p.ctx }
        } else {
            Probe { stage: Stage::Id(Hook::Exec), ctx: BpfCtx { prog2_fd: n, ..p.ctx } }
        },
        Stage::BindAgain => if n < 0 {
            Probe { stage: Stage::Finished, ctx: BpfCtx { ok: true, ..p.ctx } }
        } else {
            Probe { stage: Stage::Id(Hook::Exec), ctx: BpfCtx { prog2_fd: n, ..p.ctx } }
        },
        Stage::Id(hook) => {
            let id = event_id(text_in(a));
            if id == 0 {
                hooked(hook, p.ctx, NO_FD)
            } else {
                Probe { stage: Stage::Open(hook, id as u64), ctx: p.ctx }
            }
        },
        Stage::Open(hook, _) => if n < 0 {
            hooked(hook, p.ctx, NO_FD)
        } else {
            Probe { stage: Stage::Attach(hook, n), ctx: p.ctx }
        },
        Stage::Attach(hook, fd) => if n < 0 {
            Probe { stage: Stage::Detach(hook, fd), ctx: p.ctx }
        } else {
            Probe { stage: Stage::Enable(hook, fd), ctx: p.ctx }
        },
        Stage::Enable(hook, fd) => hooked(hook, p.ctx, fd),
        Stage::Detach(hook, _) => hooked(hook, p.ctx, NO_FD),
        Stage::GiveUp => Probe { stage: Stage::Finished, ctx: bpf::nothing_loaded() },
        Stage::Finished => p,
    }
}

/// Where the loading starts; where it is not wanted it is finished, with nothing loaded.
pub open spec fn start(enable: bool) -> Probe {
    Probe {
        stage: if enable {
            Stage::RingMap
        } else {
            Stage::Finished
        },
        ctx: bpf::nothing_loaded(),
    }
}

/// Starts the loading. Where it is not wanted it is finished at once, with nothing loaded.
pub fn probe(enable: bool) -> (r: Probe)
    ensures
        r == start(enable),
{
    let stage: Stage = if enable {
        Stage::RingMap
    } else {
        Stage::Finished
    };
    Probe { stage, ctx: bpf_fail() }
}

/// The instruction that loads the map with the descriptor `fd`.
fn load_map_word(fd: i32) -> (r: u64)
    ensures
        r == load_map(fd),
{
    0x18u64 | (1u64 << 8) | (1u64 << 12) | ((fd as u64 & 0xFFFF_FFFF) << 32)
}

/// The program that writes the number of the process to the ring buffer `ring`.
fn report_words(ring: i32) -> (r: Vec<u64>)
    ensures
        r@ == report_program(ring),
{
    let word: u64 = load_map_word(ring);
    let r: Vec<u64> = vec![
        0x00000000000016bf,  // r6 = r1
        0x0000000e00000085,  // call 14: the process and the thread
        0x0000002000000077,  // r0 >>= 32: the process
        0x00000000fffc0a63,  // *(u32 *)(r10 - 4) = r0
        word,  // r1 = the ring buffer
        0x0000000000000000,
        0x000000000000a2bf,  // r2 = r10
        0xfffffffc00000207,  // r2 += -4
        0x00000004000003b7,  // r3 = 4
        0x00000000000004b7,  // r4 = 0
        0x0000008200000085,  // call 130: write to the ring buffer
        0x0000000000000095,  // exit
    ];
    assert(r@ =~= report_program(ring));
    r
}

/// The program that looks the thread up in the map `rules` and puts it on the CPUs found there.
fn bind_words(rules: i32) -> (r: Vec<u64>)
    ensures
        r@ == bind_program(rules),
{
    let word: u64 = load_map_word(rules);
    let r: Vec<u64> = vec![
        0x00000000000001b7,  // r1 = 0
        0x00000000fff81a7b,  // *(u64 *)(r10 - 8) = r1
        0x00000000fff01a7b,  // *(u64 *)(r10 - 16) = r1
        0x000000000000a6bf,  // r6 = r10
        0xfffffff000000607,  // r6 += -16
        0x00000000000061bf,  // r1 = r6
        0x00000010000002b7,  // r2 = 16
        0x0000001000000085,  // call 16: the name of the thread
        word,  // r1 = the map with the rules
        0x0000000000000000,
        0x00000000000062bf,  // r2 = r6
        0x0000000100000085,  // call 1: look it up
        0x00000000000a0015,  // if r0 == 0 skip 10
        0x0000000000000179,  // r1 = *(u64 *)(r0 + 0)
        0x00000000ffe81a7b,  // *(u64 *)(r10 - 24) = r1
        0x0000000000070115,  // if r1 == 0 skip 7
        0x0000002300000085,  // call 35: the task
        0x0000000000050015,  // if r0 == 0 skip 5
        0x000000000000a3bf,  // r3 = r10
        0xffffffe800000307,  // r3 += -24
        0x00000000000001bf,  // r1 = r0
        0x00000008000002b7,  // r2 = 8
        0x000000d700000085,  // call 215: put it on the CPUs
        0x00000000000000b7,  // r0 = 0
        0x0000000000000095,  // exit
    ];
    assert(r@ =~= bind_program(rules));
    r
}

/// The file with the number of the tracepoint of a hook.
fn path_of_id(hook: Hook) -> (r: String)
    ensures
        r@ == id_path(hook),
{
    let name: &str = match hook {
        Hook::Exec => "sched_process_exec",
        Hook::Fork => "sched_process_fork",
        Hook::ExecBind => "sched_process_exec",
    };
    let mut r: String = "/sys/kernel/tracing/events/sched/".to_owned();
    r.append(name);
    r.append("/id");
    r
}

/// The number in the text of such a file; 0 where there is none.
fn read_event_id(s: &Option<String>) -> (r: u64)
    ensures
        r == event_id(match s {
            Some(t) => Some(t@),
            None => None,
        }),
{
    match s {
        Some(t) => {
            let body: String = text::trim(t.as_str());
            match numeral::parse_unsigned(body.as_str(), 0xffff_ffff_ffff_ffff) {
                Some(n) => n,
                None => 0,
            }
        },
        None => 0,
    }
}

/// The attributes of the tracepoint event with the number `id`.
fn attr_of_event(id: u64) -> (r: Vec<u64>)
    ensures
        r@ == event_attr(id),
{
    let first: u64 = 2u64 | (64u64 << 32);
    let r: Vec<u64> = vec![first, id, 0, 0, 0, 0, 0, 0, 0, 0, 0, 0, 0, 0, 0, 0];
    assert(r@ =~= event_attr(id));
    r
}

/// The descriptors among two numbers.
fn open_among(a: i32, b: i32) -> (r: Vec<i32>)
    ensures
        r@ == bpf::descriptors(seq![a, b]),
{
    let mut r: Vec<i32> = Vec::new();
    if a >= 0 {
        r.push(a);
    }
    if b >= 0 {
        r.push(b);
    }
    proof {
        let both = seq![a, b];
        assert(both.drop_last() =~= seq![a]);
        assert(both.drop_last().drop_last() =~= Seq::<i32>::empty());
        reveal_with_fuel(Seq::filter, 3);
    }
    assert(r@ =~= bpf::descriptors(seq![a, b]));
    r
}

/// After the hook `hook`, which got the event `fd`, comes the next one.
fn next_hook(hook: Hook, ctx: BpfCtx, fd: i32) -> (r: Probe)
    ensures
        r == hooked(hook, ctx, fd),
{
    match hook {
        Hook::Exec => Probe { stage: Stage::Id(Hook::Fork), ctx: BpfCtx { pe_fd: fd, ..ctx } },
        Hook::Fork => Probe { stage: Stage::Id(Hook::ExecBind), ctx: BpfCtx { pe_fd2: fd, ..ctx } },
        Hook::ExecBind => Probe {
            stage: Stage::Finished,
            ctx: BpfCtx { ok: true, pe_fd3: fd, ..ctx },
        },
    }
}

impl Probe {
    /// What is to be asked of the kernel.
    pub fn request(&self) -> (r: Request)
        ensures
            r@ == asked(*self),
    {
        let ctx: BpfCtx = self.ctx;
        match self.stage {
            Stage::RingMap => Request::CreateMap(
                MapAttr {
                    kind: RING_BUFFER,
                    key_size: 0,
                    value_size: 0,
                    max_entries: 4096,
                    flags: 0,
                },
            ),
            Stage::RuleMap => Request::CreateMap(
                MapAttr {
                    kind: HASH_TABLE,
                    key_size: 16,
                    value_size: 8,
                    max_entries: 1024,
                    flags: 0,
                },
            ),
            Stage::Report => Request::LoadProgram(TRACEPOINT, report_words(ctx.ring_fd)),
            Stage::Bind => Request::LoadProgram(PERF_EVENT, bind_words(ctx.rule_map_fd)),
            Stage::BindAgain => Request::LoadProgram(TRACEPOINT, bind_words(ctx.rule_map_fd)),
            Stage::Id(hook) => Request::ReadFile(path_of_id(hook)),
            Stage::Open(_, id) => Request::OpenEvent(attr_of_event(id)),
            Stage::Attach(hook, fd) => {
                let prog: i32 = match hook {
                    Hook::Exec => ctx.prog_fd,
                    Hook::Fork => ctx.prog_fd,
                    Hook::ExecBind => ctx.prog2_fd,
                };
                Request::SetProgram(fd, prog)
            },
            Stage::Enable(_, fd) => Request::EnableEvent(fd),
            Stage::Detach(_, fd) => {
                let fds: Vec<i32> = vec![fd];
                assert(fds@ =~= seq![fd]);
                Request::Close(fds)
            },
            Stage::GiveUp => Request::Close(open_among(ctx.ring_fd, ctx.rule_map_fd)),
            Stage::Finished => Request::Done(ctx),
        }
    }

    /// Goes on after the answer to the request.
    pub fn advance(&mut self, answer: &Answer)
        ensures
            *final(self) == after(*old(self), answer@),
    {
        let ctx: BpfCtx = self.ctx;
        let n: i32 = match answer {
            Answer::Number(n) => *n,
            Answer::Text(_) => NO_FD,
        };
        let next: Probe = match self.stage {
            Stage::RingMap => if n < 0 {
                Probe { stage: Stage::Finished, ctx: bpf_fail() }
            } else {
                Probe { stage: Stage::RuleMap, ctx: BpfCtx { ring_fd: n, ..ctx } }
            },
            Stage::RuleMap => if n < 0 {
                Probe { stage: Stage::GiveUp, ctx }
            } else {
                Probe { stage: Stage::Report, ctx: BpfCtx { rule_map_fd: n, ..ctx } }
            },
            Stage::Report => if n < 0 {
                Probe { stage: Stage::GiveUp, ctx }
            } else {
                Probe { stage: Stage::Bind, ctx: BpfCtx { prog_fd: n, ..ctx } }
            },
            Stage::Bind => if n < 0 {
                Probe { stage: Stage::BindAgain, ctx }
            } else {
                Probe { stage: Stage::Id(Hook::Exec), ctx: BpfCtx { prog2_fd: n, ..ctx } }
            },
            Stage::BindAgain => if n < 0 {
                Probe { stage: Stage::Finished, ctx: BpfCtx { ok: true, ..ctx } }
            } else {
                Probe { stage: Stage::Id(Hook::Exec), ctx: BpfCtx { prog2_fd: n, ..ctx } }
            },
            Stage::Id(hook) => {
                let id: u64 = match answer {
                    Answer::Number(_) => 0,
                    Answer::Text(s) => read_event_id(s),
                };
                if id == 0 {
                    next_hook(hook, ctx, NO_FD)
                } else {
                    Probe { stage: Stage::Open(hook, id), ctx }
                }
            },
            Stage::Open(hook, _) => if n < 0 {
                next_hook(hook, ctx, NO_FD)
            } else {
                Probe { stage: Stage::Attach(hook, n), ctx }
            },
            Stage::Attach(hook, fd) => if n < 0 {
                Probe { stage: Stage::Detach(hook, fd), ctx }
            } else {
                Probe { stage: Stage::Enable(hook, fd), ctx }
            },
            Stage::Enable(hook, fd) => next_hook(hook, ctx, fd),
            Stage::Detach(hook, _) => next_hook(hook, ctx, NO_FD),
            Stage::GiveUp => Probe { stage: Stage::Finished, ctx: bpf_fail() },
            Stage::Finished => Probe { stage: Stage::Finished, ctx },
        };
        *self = next;
    }
}

/// How many answers the hooks after `hook` take at most.
pub open spec fn answers_after(hook: Hook) -> nat {
    match hook {
        Hook::Exec => 8,
        Hook::Fork => 4,
        Hook::ExecBind => 0,
    }
}

/// How many answers are left at most before the loading is finished.
pub open spec fn answers_left(stage: Stage) -> nat {
    match stage {
        Stage::RingMap => 17,
        Stage::RuleMap => 16,
        Stage::Report => 15,
        Stage::Bind => 14,
        Stage::BindAgain => 13,
        Stage::Id(hook) => answers_after(hook) + 4,
        Stage::Open(hook, _) => answers_after(hook) + 3,
        Stage::Attach(hook, _) => answers_after(hook) + 2,
        Stage::Enable(hook, _) => answers_after(hook) + 1,
        Stage::Detach(hook, _) => answers_after(hook) + 1,
        Stage::GiveUp => 1,
        Stage::Finished => 0,
    }
}

/// The loading comes to an end: each answer leaves fewer to come, and it is finished when none is
/// left.
#[verifier::spinoff_prover]
pub proof fn law_loading_ends(p: Probe, a: AnswerView)
    ensures
        answers_left(p.stage) == 0 <==> p.stage is Finished,
        p.stage !is Finished ==> answers_left(after(p, a).stage) < answers_left(p.stage),
{
    match p.stage {
        Stage::Id(hook) => lemma_hook_left(hook, p.ctx, NO_FD),
        Stage::Open(hook, _) => lemma_hook_left(hook, p.ctx, NO_FD),
        Stage::Enable(hook, fd) => lemma_hook_left(hook, p.ctx, fd),
        Stage::Detach(hook, _) => lemma_hook_left(hook, p.ctx, NO_FD),
        _ => {},
    }
}

/// When a hook is done, the answers for those after it are left.
proof fn lemma_hook_left(hook: Hook, ctx: BpfCtx, fd: i32)
    ensures
        answers_left(hooked(hook, ctx, fd).stage) == answers_after(hook),
{
}

/// The descriptors that `p` knows of, whether in its context or in its stage.
pub open spec fn held(p: Probe) -> Set<i32> {
    Set::new(
        |fd: i32|
            fd >= 0 && (p.ctx.fds().contains(fd) || match p.stage {
                Stage::Attach(_, e) => e == fd,
                Stage::Enable(_, e) => e == fd,
                Stage::Detach(_, e) => e == fd,
                _ => false,
            }),
    )
}

/// The descriptors that the answer `a` hands over at `p`.
pub open spec fn handed_over(p: Probe, a: AnswerView) -> Set<i32> {
    Set::new(
        |fd: i32|
            fd >= 0 && fd == number_in(a) && match asked(p) {
                RequestView::CreateMap(_) => true,
                RequestView::LoadProgram(_, _) => true,
                RequestView::OpenEvent(_) => true,
                _ => false,
            },
    )
}

/// The descriptors that are closed at `p`.
pub open spec fn closed_at(p: Probe) -> Set<i32> {
    Set::new(
        |fd: i32|
            match asked(p) {
                RequestView::Close(fds) => fds.contains(fd),
                _ => false,
            },
    )
}

/// The hooks before `hook` are done: what comes later is not there yet, and the programs are.
pub open spec fn hooks_before(hook: Hook, ctx: BpfCtx) -> bool {
    &&& !ctx.ok
    &&& ctx.ring_fd >= 0 && ctx.rule_map_fd >= 0 && ctx.prog_fd >= 0 && ctx.prog2_fd >= 0
    &&& hook is Exec ==> ctx.pe_fd == NO_FD
    &&& !(hook is ExecBind) ==> ctx.pe_fd2 == NO_FD
    &&& ctx.pe_fd3 == NO_FD
}

/// The event `fd` is a descriptor of its own.
pub open spec fn event_apart(fd: i32, ctx: BpfCtx) -> bool {
    fd >= 0 && !ctx.fds().contains(fd)
}

/// `p` is a state that the loading can reach: what it has not asked for is not there, and no
/// descriptor stands in two places. In the end both maps and the reporting program are loaded, or
/// nothing is.
pub open spec fn sound(p: Probe) -> bool {
    let c = p.ctx;
    let fds = c.fds();
    &&& forall|i: int, j: int|
        0 <= i < j < 7 && fds[i] >= 0 ==> #[trigger] fds[i] != #[trigger] fds[j]
    &&& match p.stage {
        Stage::RingMap => c == bpf::nothing_loaded(),
        Stage::RuleMap => c.ring_fd >= 0 && c == (BpfCtx {
            ring_fd: c.ring_fd,
            ..bpf::nothing_loaded()
        }),
        Stage::Report => c.ring_fd >= 0 && c.rule_map_fd >= 0 && c == (BpfCtx {
            ring_fd: c.ring_fd,
            rule_map_fd: c.rule_map_fd,
            ..bpf::nothing_loaded()
        }),
        Stage::GiveUp => c == (BpfCtx {
            ring_fd: c.ring_fd,
            rule_map_fd: c.rule_map_fd,
            ..bpf::nothing_loaded()
        }),
        Stage::Bind | Stage::BindAgain => c.ring_fd >= 0 && c.rule_map_fd >= 0
            && c.prog_fd >= 0 && c == (BpfCtx {
            ring_fd: c.ring_fd,
            rule_map_fd: c.rule_map_fd,
            prog_fd: c.prog_fd,
            ..bpf::nothing_loaded()
        }),
        Stage::Id(hook) => hooks_before(hook, c),
        Stage::Open(hook, _) => hooks_before(hook, c),
        Stage::Attach(hook, fd) => hooks_before(hook, c) && event_apart(fd, c),
        Stage::Enable(hook, fd) => hooks_before(hook, c) && event_apart(fd, c),
        Stage::Detach(hook, fd) => hooks_before(hook, c) && event_apart(fd, c),
        Stage::Finished => if c.ok {
            c.ring_fd >= 0 && c.rule_map_fd >= 0 && c.prog_fd >= 0
        } else {
            c == bpf::nothing_loaded()
        },
    }
}

/// The loading starts soundly and stays sound, as long as the kernel hands over no descriptor that
/// is in use; and it loses none: what it knows of after an answer is what it knew of before, with
/// what was handed over and without what was closed.
pub proof fn law_loading_keeps_track(p: Probe, a: AnswerView)
    requires
        sound(p),
        forall|fd: i32| #[trigger] handed_over(p, a).contains(fd) ==> !held(p).contains(fd),
    ensures
        sound(start(true)) && sound(start(false)),
        sound(after(p, a)),
        held(after(p, a)) == held(p).union(handed_over(p, a)).difference(closed_at(p)),
{
    let q = after(p, a);
    lemma_fds(p.ctx);
    lemma_fds(q.ctx);
    lemma_closed(p);
    lemma_stays_sound(p, a);
    assert forall|fd: i32| #[trigger] held(q).contains(fd) <==> held(p).union(
        handed_over(p, a),
    ).difference(closed_at(p)).contains(fd) by {}
    assert(held(q) =~= held(p).union(handed_over(p, a)).difference(closed_at(p)));
}

/// The next hook starts soundly.
proof fn lemma_hooked(hook: Hook, ctx: BpfCtx, fd: i32)
    requires
        hooks_before(hook, ctx),
        forall|i: int, j: int|
            0 <= i < j < 7 && ctx.fds()[i] >= 0 ==> #[trigger] ctx.fds()[i] != #[trigger] ctx.fds()[j],
        fd == NO_FD || event_apart(fd, ctx),
    ensures
        sound(hooked(hook, ctx, fd)),
{
    lemma_fds(ctx);
    let q = hooked(hook, ctx, fd);
    assert forall|i: int, j: int| 0 <= i < j < 7 && q.ctx.fds()[i] >= 0 implies #[trigger]
        q.ctx.fds()[i] != #[trigger] q.ctx.fds()[j] by {
        assert(ctx.fds().contains(ctx.fds()[i]));
        assert(ctx.fds().contains(ctx.fds()[j]));
    }
}

/// An answer leads from a sound state to a sound one.
proof fn lemma_stays_sound(p: Probe, a: AnswerView)
    requires
        sound(p),
        forall|fd: i32| #[trigger] handed_over(p, a).contains(fd) ==> !held(p).contains(fd),
    ensures
        sound(after(p, a)),
{
    let q = after(p, a);
    let n = number_in(a);
    lemma_fds(p.ctx);
    if n >= 0 {
        assert(handed_over(p, a).contains(n) ==> !held(p).contains(n));
        assert(!held(p).contains(n) ==> !p.ctx.fds().contains(n));
    }
    match p.stage {
        Stage::Id(hook) => {
            lemma_hooked(hook, p.ctx, NO_FD);
        },
        Stage::Open(hook, _) => {
            lemma_hooked(hook, p.ctx, NO_FD);
        },
        Stage::Enable(hook, fd) => {
            lemma_hooked(hook, p.ctx, fd);
        },
        Stage::Detach(hook, _) => {
            lemma_hooked(hook, p.ctx, NO_FD);
        },
        _ => {
            assert forall|i: int, j: int| 0 <= i < j < 7 && q.ctx.fds()[i] >= 0 implies #[trigger]
                q.ctx.fds()[i] != #[trigger] q.ctx.fds()[j] by {
                assert(p.ctx.fds().contains(p.ctx.fds()[i]));
                assert(p.ctx.fds().contains(p.ctx.fds()[j]));
            }
        },
    }
}

/// Which numbers stand in a context.
proof fn lemma_fds(c: BpfCtx)
    ensures
        forall|fd: i32| #[trigger]
            c.fds().contains(fd) <==> fd == c.pe_fd3 || fd == c.pe_fd2 || fd == c.pe_fd || fd
                == c.prog2_fd || fd == c.prog_fd || fd == c.rule_map_fd || fd == c.ring_fd,
{
    let f = c.fds();
    assert(f[0] == c.pe_fd3 && f[1] == c.pe_fd2 && f[2] == c.pe_fd && f[3] == c.prog2_fd);
    assert(f[4] == c.prog_fd && f[5] == c.rule_map_fd && f[6] == c.ring_fd);
}

/// Which descriptors are closed.
proof fn lemma_closed(p: Probe)
    ensures
        forall|fd: i32| #[trigger]
            closed_at(p).contains(fd) <==> match p.stage {
                Stage::Detach(_, e) => e == fd,
                Stage::GiveUp => fd >= 0 && (fd == p.ctx.ring_fd || fd == p.ctx.rule_map_fd),
                _ => false,
            },
{
    let c = p.ctx;
    let two = seq![c.ring_fd, c.rule_map_fd];
    assert(two[0] == c.ring_fd && two[1] == c.rule_map_fd);
    assert forall|fd: i32| #[trigger]
        closed_at(p).contains(fd) <==> match p.stage {
            Stage::Detach(_, e) => e == fd,
            Stage::GiveUp => fd >= 0 && (fd == p.ctx.ring_fd || fd == p.ctx.rule_map_fd),
            _ => false,
        } by {
        bpf::lemma_descriptors(two, fd);
        if let Stage::Detach(_, e) = p.stage {
            assert(seq![e][0] == e);
        }
    }
}

/// Where a sequence of answers leads from `p`.
pub open spec fn after_all(p: Probe, answers: Seq<AnswerView>) -> Probe
    decreases answers.len(),
{
    if answers.len() == 0 {
        p
    } else {
        after(after_all(p, answers.drop_last()), answers.last())
    }
}

/// The answers to the requests for a hook that succeeds: the number of its event in `id`, the event
/// `fd`, and consent to attach it and to switch it on.
pub open spec fn hook_answers(id: Seq<char>, fd: i32) -> Seq<AnswerView> {
    seq![
        AnswerView::Text(Some(id)),
        AnswerView::Number(fd),
        AnswerView::Number(0),
        AnswerView::Number(0),
    ]
}

/// What one more answer leads to.
proof fn lemma_after_push(p: Probe, answers: Seq<AnswerView>, a: AnswerView)
    ensures
        after_all(p, answers.push(a)) == after(after_all(p, answers), a),
{
    assert(answers.push(a).drop_last() =~= answers);
}

/// What four more answers lead to.
proof fn lemma_after_hook(p: Probe, before: Seq<AnswerView>, hook: Hook, id: Seq<char>, fd: i32)
    requires
        after_all(p, before).stage == Stage::Id(hook),
        event_id(Some(id)) != 0,
        fd >= 0,
    ensures
        after_all(p, before + hook_answers(id, fd)) == hooked(hook, after_all(p, before).ctx, fd),
{
    let four = hook_answers(id, fd);
    let a1 = before.push(four[0]);
    let a2 = a1.push(four[1]);
    let a3 = a2.push(four[2]);
    let a4 = a3.push(four[3]);
    lemma_after_push(p, before, four[0]);
    lemma_after_push(p, a1, four[1]);
    lemma_after_push(p, a2, four[2]);
    lemma_after_push(p, a3, four[3]);
    assert(a4 =~= before + four);
}

/// Where the kernel takes the program that puts processes on their CPUs as neither kind, the loading
/// falls back to the ring buffer: both maps and the reporting program are loaded and stay open, and
/// nothing was closed on the way.
pub proof fn law_loading_falls_back(ring: i32, rules: i32, prog: i32, no: i32, never: i32)
    requires
        ring >= 0 && rules >= 0 && prog >= 0,
        no < 0 && never < 0,
    ensures
        ({
            let p = start(true);
            let p1 = after(p, AnswerView::Number(ring));
            let p2 = after(p1, AnswerView::Number(rules));
            let p3 = after(p2, AnswerView::Number(prog));
            let p4 = after(p3, AnswerView::Number(no));
            let p5 = after(p4, AnswerView::Number(never));
            &&& p5 == (Probe {
                stage: Stage::Finished,
                ctx: BpfCtx {
                    ok: true,
                    ring_fd: ring,
                    prog_fd: prog,
                    rule_map_fd: rules,
                    ..bpf::nothing_loaded()
                },
            })
            &&& !(asked(p) is Close) && !(asked(p1) is Close) && !(asked(p2) is Close)
            &&& !(asked(p3) is Close) && !(asked(p4) is Close)
            &&& held(p5) == Set::empty().insert(ring).insert(rules).insert(prog)
        }),
{
    let c = BpfCtx {
        ok: true,
        ring_fd: ring,
        prog_fd: prog,
        rule_map_fd: rules,
        ..bpf::nothing_loaded()
    };
    lemma_fds(c);
    assert(held(Probe { stage: Stage::Finished, ctx: c }) =~= Set::empty().insert(ring).insert(
        rules,
    ).insert(prog));
}

/// Where the kernel grants every request, everything is loaded: both maps, both programs and the
/// three events, under the descriptors that it handed over.
pub proof fn law_loading_succeeds(
    ring: i32,
    rules: i32,
    prog: i32,
    prog2: i32,
    exec_id: Seq<char>,
    fork_id: Seq<char>,
    pe: i32,
    pe2: i32,
    pe3: i32,
)
    requires
        ring >= 0 && rules >= 0 && prog >= 0 && prog2 >= 0 && pe >= 0 && pe2 >= 0 && pe3 >= 0,
        event_id(Some(exec_id)) != 0,
        event_id(Some(fork_id)) != 0,
    ensures
        after_all(
            start(true),
            seq![
                AnswerView::Number(ring),
                AnswerView::Number(rules),
                AnswerView::Number(prog),
                AnswerView::Number(prog2),
            ] + hook_answers(exec_id, pe) + hook_answers(fork_id, pe2) + hook_answers(exec_id, pe3),
        ) == (Probe {
            stage: Stage::Finished,
            ctx: BpfCtx {
                ok: true,
                ring_fd: ring,
                prog_fd: prog,
                prog2_fd: prog2,
                pe_fd: pe,
                pe_fd2: pe2,
                pe_fd3: pe3,
                rule_map_fd: rules,
            },
        }),
{
    let p = start(true);
    let a0 = Seq::<AnswerView>::empty();
    let a1 = a0.push(AnswerView::Number(ring));
    let a2 = a1.push(AnswerView::Number(rules));
    let a3 = a2.push(AnswerView::Number(prog));
    let a4 = a3.push(AnswerView::Number(prog2));
    lemma_after_push(p, a0, AnswerView::Number(ring));
    lemma_after_push(p, a1, AnswerView::Number(rules));
    lemma_after_push(p, a2, AnswerView::Number(prog));
    lemma_after_push(p, a3, AnswerView::Number(prog2));
    let four = seq![
        AnswerView::Number(ring),
        AnswerView::Number(rules),
        AnswerView::Number(prog),
        AnswerView::Number(prog2),
    ];
    assert(four =~= a4);
    lemma_after_hook(p, four, Hook::Exec, exec_id, pe);
    let b1 = four + hook_answers(exec_id, pe);
    lemma_after_hook(p, b1, Hook::Fork, fork_id, pe2);
    let b2 = b1 + hook_answers(fork_id, pe2);
    lemma_after_hook(p, b2, Hook::ExecBind, exec_id, pe3);
}

} // verus!
