//! The rules that say which threads run on which CPUs, and the configuration
//! they are read from.

use vstd::hash_set::StringHashSet;
use vstd::prelude::*;

use crate::cpuset;
use crate::cpuset::{CpuSet, CpuTopology};
use crate::document;
use crate::document::Json;
use crate::numeral;
use crate::text;

pub mod cache;

verus! {

/// Whether the pattern `pat` matches `name`. The first `*` of a pattern stands for any text; a
/// pattern without one matches itself, and an empty pattern matches nothing.
pub open spec fn pattern_matches(pat: Seq<char>, name: Seq<char>) -> bool {
    let star = text::first_of(pat, '*');
    if pat.len() == 0 {
        false
    } else if star == pat.len() {
        pat == name
    } else {
        let front = pat.take(star);
        let back = pat.skip(star + 1);
        front.is_prefix_of(name) && back.is_suffix_of(name) && front.len() + back.len()
            <= name.len()
    }
}

/// How many characters of `pat` are none of `*`, `?`, `[` and `]`.
pub open spec fn plain_count(pat: Seq<char>) -> nat
    decreases pat.len(),
{
    if pat.len() == 0 {
        0
    } else {
        let c = pat.last();
        plain_count(pat.drop_last()) + if c == '*' || c == '?' || c == '[' || c == ']' {
            0nat
        } else {
            1nat
        }
    }
}

/// The priority of a rule for the threads that match `pat`.
pub open spec fn prio_of(pat: Seq<char>) -> int {
    if pat.len() == 0 {
        200
    } else if !pat.contains('*') && !pat.contains('?') {
        numeral::wrap_i32(1000int + vstd::utf8::encode_utf8(pat).len())
    } else if pat.contains('[') {
        numeral::wrap_i32(500int + plain_count(pat))
    } else if pat.contains('?') {
        numeral::wrap_i32(300int + plain_count(pat))
    } else {
        numeral::wrap_i32(100int + plain_count(pat))
    }
}

/// Whether the pattern `pat` matches `name`.
pub fn fnmatch(pat: &str, name: &str) -> (r: bool)
    ensures
        r == pattern_matches(pat@, name@),
{
    if pat.is_empty() {
        return false;
    }
    let p: Vec<char> = text::chars_of(pat);
    assert(p@.skip(0) =~= p@);
    let star: usize = text::find_from(&p, '*', 0);
    if star == p.len() {
        return text::same(pat, name);
    }
    let front: String = text::part(pat, 0, star);
    let back: String = text::part(pat, star + 1, p.len());
    assert(front@ =~= pat@.take(star as int));
    assert(back@ =~= pat@.skip(star + 1));
    let n: Vec<char> = text::chars_of(name);
    text::starts_with(name, front.as_str()) && text::ends_with(name, back.as_str()) && p.len() - 1
        <= n.len()
}

/// The priority of a rule for the threads that match `pat`: an exact name comes first, and among
/// patterns the one that fixes more characters.
pub fn rule_prio(pat: &str) -> (r: i32)
    ensures
        r == prio_of(pat@),
{
    if pat.is_empty() {
        return 200;
    }
    if !text::contains_char(pat, '*') && !text::contains_char(pat, '?') {
        return numeral::wrapping_sum(1000, pat.as_bytes().len());
    }
    let p: Vec<char> = text::chars_of(pat);
    let mut plain: usize = 0;
    let mut i: usize = 0;
    assert(p@.take(0) =~= Seq::<char>::empty());
    while i < p.len()
        invariant
            i <= p@.len(),
            plain <= i,
            plain == plain_count(p@.take(i as int)),
        decreases p@.len() - i,
    {
        assert(p@.take(i + 1).drop_last() =~= p@.take(i as int));
        let c: char = p[i];
        if !(c == '*' || c == '?' || c == '[' || c == ']') {
            plain += 1;
        }
        i += 1;
    }
    assert(p@.take(i as int) =~= p@);
    let base: i32 = if text::contains_char(pat, '[') {
        500
    } else if text::contains_char(pat, '?') {
        300
    } else {
        100
    };
    numeral::wrapping_sum(base, plain)
}

/// A rule: the threads of a package that it is for, and the CPUs they run on.
#[derive(Clone, Debug)]
pub struct Rule {
    /// The package, or a pattern for packages.
    pub pkg: String,
    /// The thread, or a pattern for threads; empty in a rule for the whole package.
    pub thread: String,
    /// The list of the CPUs.
    pub cpus: String,
    /// Which of several rules for one thread counts: the one with the highest priority.
    pub prio: i32,
    /// The directory of the cpuset for a rule for a whole package; empty in a rule for threads.
    pub cpuset_dir: String,
}

/// What a rule says.
pub struct RuleView {
    pub pkg: Seq<char>,
    pub thread: Seq<char>,
    pub cpus: Seq<char>,
    pub prio: int,
    pub cpuset_dir: Seq<char>,
}

impl View for Rule {
    type V = RuleView;

    open spec fn view(&self) -> RuleView {
        RuleView {
            pkg: self.pkg@,
            thread: self.thread@,
            cpus: self.cpus@,
            prio: self.prio as int,
            cpuset_dir: self.cpuset_dir@,
        }
    }
}

/// What the rules `v` say.
pub open spec fn rule_views(v: Seq<Rule>) -> Seq<RuleView> {
    v.map_values(|r: Rule| r@)
}

/// The packages that the entry `e` of a configuration is for.
pub open spec fn packages(e: document::Tree) -> Seq<Seq<char>> {
    document::texts(e.get("packages"@).members())
}

/// The CPUs for the threads that the entry `e` does not name.
pub open spec fn other_cpus(e: document::Tree) -> Seq<char> {
    match e.get("cpuset"@).get("other"@).text() {
        Some(s) => s,
        None => "0"@,
    }
}

/// The rules that put the threads `names` of the package `pkg` on `cpus`.
pub open spec fn name_rules(pkg: Seq<char>, cpus: Seq<char>, names: Seq<Seq<char>>) -> Seq<
    RuleView,
> {
    names.map_values(
        |name: Seq<char>|
            RuleView { pkg, thread: name, cpus, prio: prio_of(name), cpuset_dir: Seq::empty() },
    )
}

/// The rules for the threads that an entry names: each of `fields` has a list of CPUs for its
/// key and an array of threads for its value.
pub open spec fn thread_rules(pkg: Seq<char>, fields: Seq<document::Field>) -> Seq<RuleView>
    decreases fields.len(),
{
    if fields.len() == 0 {
        Seq::empty()
    } else {
        thread_rules(pkg, fields.drop_last()) + name_rules(
            pkg,
            fields.last().key,
            document::texts(fields.last().value.members()),
        )
    }
}

/// The rules of the entry `e`, all of them for its first package: one for the whole package,
/// whose cpuset is `dir`, and those for the threads that it names.
pub open spec fn entry_rules(e: document::Tree, dir: Seq<char>) -> Seq<RuleView> {
    if packages(e).len() == 0 {
        Seq::empty()
    } else {
        seq![
            RuleView {
                pkg: packages(e)[0],
                thread: Seq::empty(),
                cpus: other_cpus(e),
                prio: 200,
                cpuset_dir: dir,
            },
        ] + thread_rules(packages(e)[0], e.get("cpuset"@).get("comm"@).entries())
    }
}

/// Adds the rules that put the threads `names` of the package `pkg` on `cpus`.
fn push_name_rules(rules: &mut Vec<Rule>, pkg: &str, cpus: &str, names: &Vec<String>)
    ensures
        rule_views(final(rules)@) == rule_views(old(rules)@) + name_rules(
            pkg@,
            cpus@,
            text::views(names@),
        ),
{
    let ghost before = rule_views(rules@);
    let ghost all = text::views(names@);
    let mut i: usize = 0;
    assert(before + name_rules(pkg@, cpus@, all.take(0)) =~= before);
    while i < names.len()
        invariant
            i <= names@.len(),
            all == text::views(names@),
            rule_views(rules@) == before + name_rules(pkg@, cpus@, all.take(i as int)),
        decreases names@.len() - i,
    {
        let ghost had = rules@;
        let rule: Rule = Rule {
            pkg: pkg.to_owned(),
            thread: names[i].clone(),
            cpus: cpus.to_owned(),
            prio: rule_prio(names[i].as_str()),
            cpuset_dir: String::new(),
        };
        rules.push(rule);
        assert(rule_views(rules@) =~= rule_views(had).push(rule@));
        assert(all[i as int] == names@[i as int]@);
        assert(name_rules(pkg@, cpus@, all.take(i + 1)) =~= name_rules(
            pkg@,
            cpus@,
            all.take(i as int),
        ).push(rule@));
        assert(rule_views(rules@) =~= before + name_rules(pkg@, cpus@, all.take(i + 1)));
        i += 1;
    }
    assert(all.take(i as int) =~= all);
}

/// Adds the rules for the threads that an entry names.
fn push_thread_rules(rules: &mut Vec<Rule>, pkg: &str, comm: Option<&Json>)
    ensures
        rule_views(final(rules)@) == rule_views(old(rules)@) + thread_rules(
            pkg@,
            document::held(comm).entries(),
        ),
{
    let ghost before = rule_views(rules@);
    match comm {
        Some(Json::Object(v)) => {
            let ghost all = document::held(comm).entries();
            proof {
                document::lemma_object_view(*comm->0);
            }
            let mut i: usize = 0;
            assert(before + thread_rules(pkg@, all.take(0)) =~= before);
            while i < v.len()
                invariant
                    i <= v@.len(),
                    all.len() == v@.len(),
                    forall|j: int|
                        0 <= j < v@.len() ==> (#[trigger] all[j]).key == v@[j].0@ && all[j].value
                            == v@[j].1@,
                    rule_views(rules@) == before + thread_rules(pkg@, all.take(i as int)),
                decreases v@.len() - i,
            {
                let names: Vec<String> = document::texts_in(Some(&v[i].1));
                push_name_rules(rules, pkg, v[i].0.as_str(), &names);
                assert(all.take(i + 1).drop_last() =~= all.take(i as int));
                assert(rule_views(rules@) =~= before + thread_rules(pkg@, all.take(i + 1)));
                i += 1;
            }
            assert(all.take(i as int) =~= all);
        },
        _ => {
            assert(before + thread_rules(pkg@, document::held(comm).entries()) =~= before);
        },
    }
}

/// Adds the rules of the entry `entry`, whose first package is `pkg`.
pub(crate) fn push_entry_rules(rules: &mut Vec<Rule>, pkg: &str, entry: &Json, dir: String)
    requires
        packages(entry@).len() > 0,
        packages(entry@)[0] == pkg@,
    ensures
        rule_views(final(rules)@) == rule_views(old(rules)@) + entry_rules(entry@, dir@),
{
    let ghost before = rule_views(rules@);
    let ghost had = rules@;
    let cpuset: Option<&Json> = entry.get("cpuset");
    let other: String = other_list(entry);
    let rule: Rule = Rule {
        pkg: pkg.to_owned(),
        thread: String::new(),
        cpus: other,
        prio: 200,
        cpuset_dir: dir,
    };
    rules.push(rule);
    assert(rule_views(rules@) =~= rule_views(had).push(rule@));
    push_thread_rules(rules, pkg, document::get_in(cpuset, "comm"));
    assert(rule_views(rules@) =~= before + entry_rules(entry@, dir@));
}

/// The CPUs for the threads that `entry` does not name.
fn other_list(entry: &Json) -> (r: String)
    ensures
        r@ == other_cpus(entry@),
{
    let cpuset: Option<&Json> = entry.get("cpuset");
    match document::text_of(document::get_in(cpuset, "other")) {
        Some(s) => s.to_owned(),
        None => "0".to_owned(),
    }
}

/// The configuration.
pub struct AppConfig {
    /// The rules, in the order in which they were read.
    pub rules: Vec<Rule>,
    /// The packages that the configuration names.
    pub pkg_set: StringHashSet,
    /// Those of them that are patterns.
    pub wild: Vec<String>,
    /// When the file was last changed, in nanoseconds since the epoch.
    pub mtime: i128,
    /// Whether new processes are to be reported by the kernel.
    pub ebpf: bool,
    /// The machine's cpusets.
    pub topo: CpuTopology,
}

/// A cpuset directory that a rule asks for.
#[derive(Debug)]
pub struct DirRequest {
    /// The directory.
    pub path: String,
    /// The list of CPUs for it.
    pub cpus: String,
    /// The memory nodes for it.
    pub mems: String,
}

/// The name of the cpuset for the list of CPUs `list`: the list, written as ranges.
pub open spec fn cpuset_name(list: Seq<char>) -> Seq<char> {
    cpuset::range_list(cpuset::list_mask(list), 0)
}

/// Whether a package name is a pattern.
pub open spec fn is_wild(pkg: Seq<char>) -> bool {
    pkg.contains('*') || pkg.contains('?')
}

/// The patterns among the packages `v`, in their order.
pub open spec fn wild_among(v: Seq<Seq<char>>) -> Seq<Seq<char>>
    decreases v.len(),
{
    if v.len() == 0 {
        Seq::empty()
    } else if is_wild(v.last()) {
        wild_among(v.drop_last()).push(v.last())
    } else {
        wild_among(v.drop_last())
    }
}

/// How many of the entries `v` name a package.
pub open spec fn kept_count(v: Seq<document::Tree>) -> nat
    decreases v.len(),
{
    if v.len() == 0 {
        0
    } else {
        kept_count(v.drop_last()) + if packages(v.last()).len() > 0 {
            1nat
        } else {
            0nat
        }
    }
}

/// The packages of the entries `v`, in their order.
pub open spec fn all_packages(v: Seq<document::Tree>) -> Seq<Seq<char>>
    decreases v.len(),
{
    if v.len() == 0 {
        Seq::empty()
    } else {
        all_packages(v.drop_last()) + packages(v.last())
    }
}

/// The cpuset directory of the entry `e`, which is number `k` of those that name a package:
/// the name of its cpuset, where `made` says of `k` that the directory is there.
pub open spec fn made_dir(e: document::Tree, made: Seq<bool>, k: nat) -> Seq<char> {
    if k < made.len() && made[k as int] {
        cpuset_name(other_cpus(e))
    } else {
        Seq::empty()
    }
}

/// The rules of the entries `v`. `made` says for each entry that names a package whether there
/// is a cpuset directory for it.
pub open spec fn all_rules(v: Seq<document::Tree>, made: Seq<bool>) -> Seq<RuleView>
    decreases v.len(),
{
    if v.len() == 0 {
        Seq::empty()
    } else {
        all_rules(v.drop_last(), made) + entry_rules(
            v.last(),
            made_dir(v.last(), made, kept_count(v.drop_last())),
        )
    }
}

/// The document `root` holds a greeting and nothing else: it says `meow` under `nekonemo`.
pub open spec fn only_greets(root: document::Tree) -> bool {
    root.get("nekonemo"@).text() == Some("meow"@) && root.entries().len() <= 1
}

/// The entries of a configuration: the document itself where it is an array, else what stands
/// under `rules`. A document that holds only the greeting is no configuration.
pub open spec fn config_entries(root: document::Tree) -> Option<Seq<document::Tree>> {
    let list = if root is Array {
        root
    } else {
        root.get("rules"@)
    };
    if only_greets(root) {
        None
    } else if list is Array {
        Some(list.members())
    } else {
        None
    }
}

impl AppConfig {
    /// The configuration is the one that the document `root` describes. `made` says for each
    /// entry that names a package whether there is a cpuset directory for it.
    pub open spec fn describes(&self, root: document::Tree, made: Seq<bool>) -> bool {
        config_entries(root) matches Some(v) && {
            &&& rule_views(self.rules@) == all_rules(v, made)
            &&& self.pkg_set@ == all_packages(v).to_set()
            &&& text::views(self.wild@) == wild_among(all_packages(v))
            &&& self.ebpf == root.get("features"@).get("ebpf"@).holds()
        }
    }

    /// The configuration that the document `root` describes; `None` where it is none. `made`
    /// says for each of the requests of `cpuset_requests` whether the directory is there.
    pub fn from_document(root: &Json, topo: &CpuTopology, made: &Vec<bool>, mtime: i128) -> (r:
        Option<AppConfig>)
        ensures
            match r {
                Some(c) => c.describes(
                    root@,
                    if topo.cpuset_enabled {
                        made@
                    } else {
                        Seq::empty()
                    },
                ) && c.mtime == mtime && c.topo.cpuset_enabled == topo.cpuset_enabled
                    && c.topo.mems_str@ == topo.mems_str@,
                None => config_entries(root@) is None,
            },
            r matches Some(c) ==> (c.ebpf <==> root@.get("features"@).get("ebpf"@)
                == document::Tree::Bool(true)),
    {
        let ghost answers = if topo.cpuset_enabled {
            made@
        } else {
            Seq::empty()
        };
        let list: &Vec<Json> = match entry_list(root) {
            Some(v) => v,
            None => {
                return None;
            },
        };
        let ghost all = config_entries(root@)->0;
        let ebpf: bool = match document::get_in(root.get("features"), "ebpf") {
            Some(Json::Bool(b)) => *b,
            _ => false,
        };
        let mut rules: Vec<Rule> = Vec::new();
        let mut pkg_set: StringHashSet = StringHashSet::new();
        let mut wild: Vec<String> = Vec::new();
        let mut kept: usize = 0;
        let mut i: usize = 0;
        assert(all.take(0) =~= Seq::empty());
        assert(rule_views(rules@) =~= all_rules(all.take(0), answers));
        assert(text::views(wild@) =~= wild_among(all_packages(all.take(0))));
        assert(pkg_set@ =~= all_packages(all.take(0)).to_set());
        while i < list.len()
            invariant
                all.len() == list@.len(),
                forall|j: int| 0 <= j < list@.len() ==> (#[trigger] all[j]) == list@[j]@,
                i <= list@.len(),
                answers == (if topo.cpuset_enabled {
                    made@
                } else {
                    Seq::empty()
                }),
                kept <= i,
                kept == kept_count(all.take(i as int)),
                rule_views(rules@) == all_rules(all.take(i as int), answers),
                pkg_set@ == all_packages(all.take(i as int)).to_set(),
                text::views(wild@) == wild_among(all_packages(all.take(i as int))),
            decreases list@.len() - i,
        {
            let ghost now = all.take(i + 1);
            assert(now.drop_last() =~= all.take(i as int));
            let entry: &Json = &list[i];
            let names: Vec<String> = document::texts_in(entry.get("packages"));
            assert(now.last() == entry@);
            assert(text::views(names@) == packages(entry@));
            note_packages(&names, &mut pkg_set, &mut wild, Ghost(all_packages(all.take(i as int))));
            if names.len() > 0 {
                let dir: String = if topo.cpuset_enabled && kept < made.len() && made[kept] {
                    range_name(other_list(entry).as_str())
                } else {
                    String::new()
                };
                assert(packages(entry@)[0] == names@[0]@);
                assert(dir@ =~= made_dir(entry@, answers, kept as nat));
                push_entry_rules(&mut rules, names[0].as_str(), entry, dir);
                kept += 1;
            } else {
                assert(packages(entry@).len() == 0);
                assert(entry_rules(entry@, made_dir(entry@, answers, kept as nat))
                    =~= Seq::empty());
            }
            assert(rule_views(rules@) =~= all_rules(now, answers));
            i += 1;
        }
        assert(all.take(i as int) =~= all);
        Some(
            AppConfig {
                rules,
                pkg_set,
                wild,
                mtime,
                ebpf,
                topo: CpuTopology {
                    cpuset_enabled: topo.cpuset_enabled,
                    mems_str: topo.mems_str.clone(),
                },
            },
        )
    }
}

/// Whether the document `root` holds a greeting and nothing else.
pub fn document_greets(root: &Json) -> (r: bool)
    ensures
        r == only_greets(root@),
{
    let meow: bool = match document::text_of(root.get("nekonemo")) {
        Some(s) => text::same(s, "meow"),
        None => false,
    };
    let count: usize = match root {
        Json::Object(v) => {
            proof {
                document::lemma_object_view(*root);
            }
            v.len()
        },
        _ => 0,
    };
    meow && count <= 1
}

/// Whether the text `data` holds a greeting and nothing else. It is no configuration then, and
/// `AppConfig::load` finds none in it.
pub fn greets(data: &str) -> (r: bool)
    requires
        document::readable(data@),
    ensures
        r == (document::json_document(data@) matches Some(root) && only_greets(root)),
{
    match document::parse(data) {
        Some(root) => document_greets(&root),
        None => false,
    }
}

/// The entries of the configuration `root`; `None` where it is none.
fn entry_list(root: &Json) -> (r: Option<&Vec<Json>>)
    ensures
        match r {
            Some(v) => config_entries(root@) matches Some(all) && all.len() == v@.len()
                && forall|j: int| 0 <= j < v@.len() ==> (#[trigger] all[j]) == v@[j]@,
            None => config_entries(root@) is None,
        },
{
    if document_greets(root) {
        return None;
    }
    let entries: Option<&Json> = match root {
        Json::Array(_) => Some(root),
        _ => root.get("rules"),
    };
    match entries {
        Some(Json::Array(v)) => {
            proof {
                document::lemma_array_view(*entries->0, *v);
            }
            Some(v)
        },
        _ => None,
    }
}

/// Adds the packages `names` to the set, and those that are patterns to `wild`, after the
/// packages `before`.
fn note_packages(
    names: &Vec<String>,
    pkg_set: &mut StringHashSet,
    wild: &mut Vec<String>,
    before: Ghost<Seq<Seq<char>>>,
)
    requires
        old(pkg_set)@ == before@.to_set(),
        text::views(old(wild)@) == wild_among(before@),
    ensures
        final(pkg_set)@ == (before@ + text::views(names@)).to_set(),
        text::views(final(wild)@) == wild_among(before@ + text::views(names@)),
{
    let ghost all = text::views(names@);
    let mut i: usize = 0;
    assert(before@ + all.take(0) =~= before@);
    while i < names.len()
        invariant
            i <= names@.len(),
            all == text::views(names@),
            pkg_set@ == (before@ + all.take(i as int)).to_set(),
            text::views(wild@) == wild_among(before@ + all.take(i as int)),
        decreases names@.len() - i,
    {
        let ghost prev = before@ + all.take(i as int);
        let ghost now = before@ + all.take(i + 1);
        assert(now.drop_last() =~= prev);
        assert(now.last() == names@[i as int]@);
        assert(now =~= prev.push(names@[i as int]@));
        pkg_set.insert(names[i].clone());
        proof {
            prev.lemma_push_to_set_commute(names@[i as int]@);
        }
        let ghost had = wild@;
        if text::contains_char(names[i].as_str(), '*') || text::contains_char(
            names[i].as_str(),
            '?',
        ) {
            wild.push(names[i].clone());
            assert(text::views(wild@) =~= text::views(had).push(names@[i as int]@));
        }
        i += 1;
    }
    assert(all.take(i as int) =~= all);
}

/// The name of the cpuset for the list of CPUs `list`.
fn range_name(list: &str) -> (r: String)
    ensures
        r@ == cpuset_name(list@),
{
    CpuSet::from_range(list).to_range_string()
}

/// What a request for a cpuset directory says.
pub struct RequestView {
    pub path: Seq<char>,
    pub cpus: Seq<char>,
    pub mems: Seq<char>,
}

impl View for DirRequest {
    type V = RequestView;

    open spec fn view(&self) -> RequestView {
        RequestView { path: self.path@, cpus: self.cpus@, mems: self.mems@ }
    }
}

/// The cpuset directories below `base` for the entries `v` that name a package, one for each.
pub open spec fn wanted_dirs(v: Seq<document::Tree>, base: Seq<char>, mems: Seq<char>) -> Seq<
    RequestView,
>
    decreases v.len(),
{
    if v.len() == 0 {
        Seq::empty()
    } else if packages(v.last()).len() > 0 {
        let name = cpuset_name(other_cpus(v.last()));
        wanted_dirs(v.drop_last(), base, mems).push(
            RequestView { path: base + seq!['/'] + name, cpus: name, mems },
        )
    } else {
        wanted_dirs(v.drop_last(), base, mems)
    }
}

/// The cpuset directories that the configuration `root` asks for: none where the machine has no
/// cpusets or `root` is no configuration.
pub open spec fn requests_of(
    root: document::Tree,
    enabled: bool,
    base: Seq<char>,
    mems: Seq<char>,
) -> Seq<RequestView> {
    match config_entries(root) {
        Some(v) => if enabled {
            wanted_dirs(v, base, mems)
        } else {
            Seq::empty()
        },
        None => Seq::empty(),
    }
}

/// What the requests `v` say.
pub open spec fn request_views(v: Seq<DirRequest>) -> Seq<RequestView> {
    v.map_values(|r: DirRequest| r@)
}

/// The cpuset directories below `base` that the configuration `root` asks for.
pub fn document_requests(root: &Json, topo: &CpuTopology, base: &str) -> (r: Vec<DirRequest>)
    ensures
        request_views(r@) == requests_of(
            root@,
            topo.cpuset_enabled,
            base@,
            topo.mems_str@,
        ),
{
    let mut r: Vec<DirRequest> = Vec::new();
    assert(request_views(r@) =~= Seq::empty());
    if !topo.cpuset_enabled {
        return r;
    }
    let list: &Vec<Json> = match entry_list(root) {
        Some(v) => v,
        None => {
            return r;
        },
    };
    let ghost all = config_entries(root@)->0;
    let mut i: usize = 0;
    assert(all.take(0) =~= Seq::empty());
    while i < list.len()
        invariant
            all.len() == list@.len(),
            forall|j: int| 0 <= j < list@.len() ==> (#[trigger] all[j]) == list@[j]@,
            i <= list@.len(),
            request_views(r@) == wanted_dirs(all.take(i as int), base@, topo.mems_str@),
        decreases list@.len() - i,
    {
        let ghost now = all.take(i + 1);
        assert(now.drop_last() =~= all.take(i as int));
        let entry: &Json = &list[i];
        let names: Vec<String> = document::texts_in(entry.get("packages"));
        assert(now.last() == entry@);
        assert(text::views(names@) == packages(entry@));
        assert(packages(entry@).len() == names@.len());
        if names.len() > 0 {
            let ghost had = r@;
            let name: String = range_name(other_list(entry).as_str());
            let mut path: String = base.to_owned();
            path.append("/");
            path.append(name.as_str());
            proof {
                reveal_strlit("/");
                assert("/"@ =~= seq!['/']);
            }
            let request: DirRequest = DirRequest {
                path,
                cpus: name,
                mems: topo.mems_str.clone(),
            };
            r.push(request);
            assert(request_views(r@) =~= request_views(had).push(request@));
        }
        i += 1;
    }
    assert(all.take(i as int) =~= all);
    r
}

/// The cpuset directories below `base` that the configuration in the text `data` asks for.
pub fn cpuset_requests(data: &str, topo: &CpuTopology, base: &str) -> (r: Vec<DirRequest>)
    requires
        document::readable(data@),
    ensures
        match document::json_document(data@) {
            Some(root) => request_views(r@) == requests_of(
                root,
                topo.cpuset_enabled,
                base@,
                topo.mems_str@,
            ),
            None => r@.len() == 0,
        },
{
    match document::parse(data) {
        Some(root) => document_requests(&root, topo, base),
        None => Vec::new(),
    }
}

impl AppConfig {
    /// The configuration in the text `data`, which was last changed at `mtime`; `None` where it
    /// holds none. `made` says for each of the requests of `cpuset_requests` whether the
    /// directory is there.
    pub fn load(data: &str, topo: &CpuTopology, made: &Vec<bool>, mtime: i128) -> (r: Option<
        AppConfig,
    >)
        requires
            document::readable(data@),
        ensures
            match document::json_document(data@) {
                Some(root) => match r {
                    Some(c) => c.describes(
                        root,
                        if topo.cpuset_enabled {
                            made@
                        } else {
                            Seq::empty()
                        },
                    ) && c.mtime == mtime && c.topo.cpuset_enabled == topo.cpuset_enabled
                        && c.topo.mems_str@ == topo.mems_str@,
                    None => config_entries(root) is None,
                },
                None => r is None,
            },
            r matches Some(c) ==> (document::json_document(data@) matches Some(root) && (c.ebpf
                <==> root.get("features"@).get("ebpf"@) == document::Tree::Bool(true))),
    {
        match document::parse(data) {
            Some(root) => AppConfig::from_document(&root, topo, made, mtime),
            None => None,
        }
    }

    /// Whether there is a rule for some of the threads of the package `pkg`.
    pub fn pkg_has_thread_rules(&self, pkg: &str) -> (r: bool)
        ensures
            r <==> exists|i: int|
                0 <= i < self.rules@.len() && (#[trigger] self.rules@[i]).thread@.len() > 0
                    && pattern_matches(self.rules@[i].pkg@, pkg@),
    {
        let mut i: usize = 0;
        while i < self.rules.len()
            invariant
                i <= self.rules@.len(),
                forall|j: int|
                    0 <= j < i ==> !((#[trigger] self.rules@[j]).thread@.len() > 0
                        && pattern_matches(self.rules@[j].pkg@, pkg@)),
            decreases self.rules@.len() - i,
        {
            if !self.rules[i].thread.as_str().is_empty() && fnmatch(
                self.rules[i].pkg.as_str(),
                pkg,
            ) {
                return true;
            }
            i += 1;
        }
        false
    }
}

/// A pattern without a `*` matches itself alone; one with a `*` matches what starts with the text
/// before the first `*` and goes on, with anything between, to end with the text after it.
pub proof fn law_patterns(front: Seq<char>, back: Seq<char>, name: Seq<char>)
    requires
        !front.contains('*'),
    ensures
        front.len() > 0 ==> (pattern_matches(front, name) <==> front == name),
        pattern_matches(front + seq!['*'] + back, name) <==> exists|mid: Seq<char>|
            name == #[trigger] (front + mid) + back,
{
    let n = front.len() as int;
    let pat = front + seq!['*'] + back;
    text::lemma_first_of(front, '*');
    if text::first_of(front, '*') < n {
        assert(front.contains(front[text::first_of(front, '*')]));
    }
    assert forall|i: int| 0 <= i < n implies pat[i] != '*' by {
        assert(pat[i] == front[i]);
        assert(front.contains(front[i]));
    }
    text::lemma_first_of_unique(pat, '*', n);
    assert(pat.take(n) =~= front);
    assert(pat.skip(n + 1) =~= back);
    if pattern_matches(pat, name) {
        let mid = name.subrange(n, name.len() - back.len());
        assert(name =~= (front + mid) + back);
    }
    if exists|mid: Seq<char>| name == #[trigger] (front + mid) + back {
        let mid = choose|mid: Seq<char>| name == #[trigger] (front + mid) + back;
        assert(front.is_prefix_of(name));
        assert(name.subrange(name.len() - back.len(), name.len() as int) =~= back);
        assert(back.is_suffix_of(name));
    }
}

/// No text has more of the plain characters than it has characters.
proof fn lemma_plain_count(pat: Seq<char>)
    ensures
        plain_count(pat) <= pat.len(),
    decreases pat.len(),
{
    if pat.len() > 0 {
        lemma_plain_count(pat.drop_last());
    }
}

/// A text that is not empty has at least one byte.
proof fn lemma_some_bytes(s: Seq<char>)
    requires
        s.len() > 0,
    ensures
        vstd::utf8::encode_utf8(s).len() > 0,
{
    assert(vstd::utf8::encode_scalar(s[0] as u32).len() > 0);
}

/// Among the rules for a thread the exact name comes first, then a pattern with a bracket, then
/// one with a question mark, then the rule for the whole package, then a pattern with stars only.
/// Each of these holds as far as the numbers allow: the more plain characters a pattern has, the
/// higher its priority, so that a very long one comes before what has few. Names of threads have
/// 15 bytes at most.
pub proof fn law_priority_order(
    exact: Seq<char>,
    bracket: Seq<char>,
    question: Seq<char>,
    star: Seq<char>,
)
    requires
        exact.len() > 0 && !exact.contains('*') && !exact.contains('?'),
        vstd::utf8::encode_utf8(exact).len() <= 0x7fff_f000,
        bracket.contains('[') && (bracket.contains('*') || bracket.contains('?')),
        question.contains('?') && !question.contains('['),
        star.contains('*') && !star.contains('?') && !star.contains('['),
        bracket.len() <= 0x7fff_f000 && question.len() <= 0x7fff_f000 && star.len() <= 0x7fff_f000,
    ensures
        prio_of(exact) > prio_of(Seq::empty()),
        plain_count(bracket) <= 500 + vstd::utf8::encode_utf8(exact).len() - 1 <==> prio_of(exact)
            > prio_of(bracket),
        plain_count(question) <= 700 + vstd::utf8::encode_utf8(exact).len() - 1 <==> prio_of(exact)
            > prio_of(question),
        plain_count(star) <= 900 + vstd::utf8::encode_utf8(exact).len() - 1 <==> prio_of(exact)
            > prio_of(star),
        plain_count(question) < 200 + plain_count(bracket) <==> prio_of(bracket) > prio_of(
            question,
        ),
        prio_of(bracket) > prio_of(Seq::empty()),
        prio_of(question) > prio_of(Seq::empty()),
        plain_count(star) < 100 <==> prio_of(Seq::empty()) > prio_of(star),
        prio_of(star) > 0,
{
    lemma_plain_count(bracket);
    lemma_plain_count(question);
    lemma_plain_count(star);
    lemma_some_bytes(exact);
}

/// Among patterns of a kind the one with more plain characters comes first.
pub proof fn law_longer_comes_first(a: Seq<char>, b: Seq<char>)
    requires
        a.len() <= 0x7fff_f000 && b.len() <= 0x7fff_f000,
        a.contains('*') || a.contains('?'),
        b.contains('*') || b.contains('?'),
        a.contains('[') == b.contains('['),
        a.contains('?') == b.contains('?'),
    ensures
        prio_of(a) > prio_of(b) <==> plain_count(a) > plain_count(b),
{
    lemma_plain_count(a);
    lemma_plain_count(b);
}

/// What each rule of a configuration is like: its package is one that the configuration names, its
/// priority is that of its thread, and a rule for threads has no cpuset directory.
pub open spec fn rule_sound(r: RuleView, pkgs: Seq<Seq<char>>) -> bool {
    &&& pkgs.contains(r.pkg)
    &&& r.prio == prio_of(r.thread)
    &&& r.thread.len() > 0 ==> r.cpuset_dir.len() == 0
}

/// The rules for threads are sound.
proof fn lemma_thread_rules_sound(
    pkg: Seq<char>,
    fields: Seq<document::Field>,
    pkgs: Seq<Seq<char>>,
)
    requires
        pkgs.contains(pkg),
    ensures
        forall|i: int|
            0 <= i < thread_rules(pkg, fields).len() ==> #[trigger] rule_sound(
                thread_rules(pkg, fields)[i],
                pkgs,
            ),
    decreases fields.len(),
{
    if fields.len() > 0 {
        lemma_thread_rules_sound(pkg, fields.drop_last(), pkgs);
        let front = thread_rules(pkg, fields.drop_last());
        let all = thread_rules(pkg, fields);
        assert forall|i: int| 0 <= i < all.len() implies #[trigger] rule_sound(all[i], pkgs) by {
            if i < front.len() {
                assert(all[i] == front[i]);
                assert(rule_sound(front[i], pkgs));
            }
        }
    }
}

/// The rules of an entry are sound.
pub proof fn lemma_entry_rules_sound(e: document::Tree, dir: Seq<char>)
    ensures
        forall|i: int|
            0 <= i < entry_rules(e, dir).len() ==> #[trigger] rule_sound(
                entry_rules(e, dir)[i],
                packages(e),
            ),
{
    let all = entry_rules(e, dir);
    if packages(e).len() > 0 {
        let first = packages(e)[0];
        let fields = e.get("cpuset"@).get("comm"@).entries();
        let rest = thread_rules(first, fields);
        lemma_thread_rules_sound(first, fields, packages(e));
        assert forall|i: int| 0 <= i < all.len() implies #[trigger] rule_sound(
            all[i],
            packages(e),
        ) by {
            if i > 0 {
                assert(all[i] == rest[i - 1]);
                assert(rule_sound(rest[i - 1], packages(e)));
            }
        }
    }
}

/// Every rule of a configuration is for a package that the configuration names, has the priority of
/// its thread, and has a cpuset directory only where it is for a whole package.
pub proof fn law_rules_sound(v: Seq<document::Tree>, made: Seq<bool>)
    ensures
        forall|i: int|
            0 <= i < all_rules(v, made).len() ==> #[trigger] rule_sound(
                all_rules(v, made)[i],
                all_packages(v),
            ),
    decreases v.len(),
{
    if v.len() > 0 {
        let w = v.drop_last();
        let e = v.last();
        law_rules_sound(w, made);
        let front = all_rules(w, made);
        let all = all_rules(v, made);
        let pkgs = all_packages(v);
        assert forall|i: int| 0 <= i < all.len() implies #[trigger] rule_sound(all[i], pkgs) by {
            if i < front.len() {
                assert(all[i] == front[i]);
                assert(rule_sound(front[i], all_packages(w)));
                let k = choose|k: int|
                    0 <= k < all_packages(w).len() && all_packages(w)[k] == front[i].pkg;
                assert(pkgs[k] == front[i].pkg);
            } else {
                let own = entry_rules(e, made_dir(e, made, kept_count(w)));
                lemma_entry_rules_sound(e, made_dir(e, made, kept_count(w)));
                assert(all[i] == own[i - front.len()]);
                assert(rule_sound(own[i - front.len()], packages(e)));
                let k = choose|k: int| 0 <= k < packages(e).len() && packages(e)[k] == all[i].pkg;
                assert(pkgs[all_packages(w).len() + k] == all[i].pkg);
            }
        }
    }
}

/// The requests for cpuset directories line up with the rules: there is one for each entry that
/// names a package, and the directory that an entry's rule has, once it is there, is the one that
/// was asked for.
pub proof fn law_requests_line_up(
    v: Seq<document::Tree>,
    base: Seq<char>,
    mems: Seq<char>,
    made: Seq<bool>,
    i: int,
)
    requires
        0 <= i < v.len(),
        packages(v[i]).len() > 0,
    ensures
        wanted_dirs(v, base, mems).len() == kept_count(v),
        kept_count(v.take(i)) < kept_count(v),
        ({
            let k = kept_count(v.take(i));
            let request = wanted_dirs(v, base, mems)[k as int];
            let dir = made_dir(v[i], made, k);
            &&& request.path == base + seq!['/'] + request.cpus
            &&& dir == (if k < made.len() && made[k as int] {
                request.cpus
            } else {
                Seq::empty()
            })
        }),
    decreases v.len(),
{
    lemma_one_request_each(v, base, mems);
    let w = v.drop_last();
    if i == v.len() - 1 {
        assert(v.take(i) =~= w);
        lemma_one_request_each(w, base, mems);
    } else {
        assert(w[i] == v[i]);
        assert(w.take(i) =~= v.take(i));
        law_requests_line_up(w, base, mems, made, i);
    }
}

/// There is one request for each entry that names a package.
proof fn lemma_one_request_each(v: Seq<document::Tree>, base: Seq<char>, mems: Seq<char>)
    ensures
        wanted_dirs(v, base, mems).len() == kept_count(v),
    decreases v.len(),
{
    if v.len() > 0 {
        lemma_one_request_each(v.drop_last(), base, mems);
    }
}

} // verus!
