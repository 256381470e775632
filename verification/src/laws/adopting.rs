//! How a package that nobody configured gets rules of its own: which cores its
//! threads go to, and how its entry is kept.

use vstd::prelude::*;

use crate::config;
use crate::config::cache;
use crate::cpuset;
use crate::document;
use crate::document::{Field, Json, Tree};
use crate::laws::documents;
use crate::laws::placing;
use crate::laws::rules;
use crate::laws::texts;
use crate::process;
use crate::text;

verus! {

/// The name has the word in it.
pub open spec fn has_word(name: Seq<char>, word: Seq<char>) -> bool {
    exists|front: Seq<char>, back: Seq<char>| name == #[trigger] ((front + word) + back)
}

/// The name has a word of those that draw.
pub open spec fn draws(name: Seq<char>) -> bool {
    has_word(name, "Render"@) || has_word(name, "Gfx"@) || has_word(name, "GL"@) || has_word(
        name,
        "Vulkan"@,
    )
}

/// The name has a word of those that play.
pub open spec fn plays(name: Seq<char>) -> bool {
    has_word(name, "Decode"@) || has_word(name, "Codec"@) || has_word(name, "Video"@) || has_word(
        name,
        "Audio"@,
    )
}

/// The name has a word of those that drive a game.
pub open spec fn drives(name: Seq<char>) -> bool {
    has_word(name, "Main"@) || has_word(name, "Unity"@) || has_word(name, "Game"@) || has_word(
        name,
        "Native"@,
    ) || has_word(name, "RHI"@) || has_word(name, "TaskGraph"@)
}

/// The name has a word of those that help.
pub open spec fn helps(name: Seq<char>) -> bool {
    has_word(name, "Worker"@) || has_word(name, "Thread"@) || has_word(name, "Job"@)
}

/// The name has a word of those that wait for others.
pub open spec fn waits(name: Seq<char>) -> bool {
    has_word(name, "Io"@) || has_word(name, "Network"@) || has_word(name, "Http"@)
}

/// The name has a word of those that rest.
pub open spec fn rests(name: Seq<char>) -> bool {
    has_word(name, "Background"@) || has_word(name, "Idle"@) || has_word(name, "Pool"@)
}

/// Having a word is having its text.
proof fn lemma_has_word(name: Seq<char>, word: Seq<char>)
    ensures
        text::has_text(name, word) <==> has_word(name, word),
{
    texts::law_has_text(name, word);
}

/// The load of a thread by the words in its name: 10 for those that draw, whatever else is in the
/// name; of the others 8 for those that play; of the rest 9 for those that drive, 5 for those
/// that help, 3 for those that wait, 1 for those that rest, and 5 without any such word.
pub proof fn law_loads(name: Seq<char>)
    ensures
        draws(name) <==> cache::load_of(name) == 10,
        !draws(name) && plays(name) <==> cache::load_of(name) == 8,
        !draws(name) && !plays(name) && drives(name) <==> cache::load_of(name) == 9,
        !draws(name) && !plays(name) && !drives(name) && !helps(name) && waits(name)
            <==> cache::load_of(name) == 3,
        !draws(name) && !plays(name) && !drives(name) && !helps(name) && !waits(name) && rests(name)
            <==> cache::load_of(name) == 1,
        !draws(name) && !plays(name) && !drives(name) && (helps(name) || (!waits(name) && !rests(
            name,
        ))) <==> cache::load_of(name) == 5,
{
    lemma_has_word(name, "Render"@);
    lemma_has_word(name, "Gfx"@);
    lemma_has_word(name, "GL"@);
    lemma_has_word(name, "Vulkan"@);
    lemma_has_word(name, "Decode"@);
    lemma_has_word(name, "Codec"@);
    lemma_has_word(name, "Video"@);
    lemma_has_word(name, "Audio"@);
    lemma_has_word(name, "Main"@);
    lemma_has_word(name, "Unity"@);
    lemma_has_word(name, "Game"@);
    lemma_has_word(name, "Native"@);
    lemma_has_word(name, "RHI"@);
    lemma_has_word(name, "TaskGraph"@);
    lemma_has_word(name, "Worker"@);
    lemma_has_word(name, "Thread"@);
    lemma_has_word(name, "Job"@);
    lemma_has_word(name, "Io"@);
    lemma_has_word(name, "Network"@);
    lemma_has_word(name, "Http"@);
    lemma_has_word(name, "Background"@);
    lemma_has_word(name, "Idle"@);
    lemma_has_word(name, "Pool"@);
}

/// Whatever stands before and after it, a word that draws gives a load of 10, one that plays a
/// load of 8 unless another word draws, and one that drives a load of at least 8.
pub proof fn law_word_anywhere(front: Seq<char>, back: Seq<char>)
    ensures
        cache::load_of((front + "Render"@) + back) == 10,
        cache::load_of((front + "Gfx"@) + back) == 10,
        cache::load_of((front + "GL"@) + back) == 10,
        cache::load_of((front + "Vulkan"@) + back) == 10,
        !draws((front + "Decode"@) + back) ==> cache::load_of((front + "Decode"@) + back) == 8,
        !draws((front + "Codec"@) + back) ==> cache::load_of((front + "Codec"@) + back) == 8,
        !draws((front + "Video"@) + back) ==> cache::load_of((front + "Video"@) + back) == 8,
        !draws((front + "Audio"@) + back) ==> cache::load_of((front + "Audio"@) + back) == 8,
        cache::load_of((front + "Main"@) + back) >= 8,
        cache::load_of((front + "Unity"@) + back) >= 8,
        cache::load_of((front + "Game"@) + back) >= 8,
        cache::load_of((front + "Native"@) + back) >= 8,
        cache::load_of((front + "RHI"@) + back) >= 8,
        cache::load_of((front + "TaskGraph"@) + back) >= 8,
        cache::load_of((front + "Worker"@) + back) >= 5,
        cache::load_of((front + "Thread"@) + back) >= 5,
        cache::load_of((front + "Job"@) + back) >= 5,
{
    law_loads((front + "Render"@) + back);
    law_loads((front + "Gfx"@) + back);
    law_loads((front + "GL"@) + back);
    law_loads((front + "Vulkan"@) + back);
    law_loads((front + "Decode"@) + back);
    law_loads((front + "Codec"@) + back);
    law_loads((front + "Video"@) + back);
    law_loads((front + "Audio"@) + back);
    law_loads((front + "Main"@) + back);
    law_loads((front + "Unity"@) + back);
    law_loads((front + "Game"@) + back);
    law_loads((front + "Native"@) + back);
    law_loads((front + "RHI"@) + back);
    law_loads((front + "TaskGraph"@) + back);
    law_loads((front + "Worker"@) + back);
    law_loads((front + "Thread"@) + back);
    law_loads((front + "Job"@) + back);
}

/// The threads for the big and for the middle cores of two groups, one after the other, are those
/// of each. One thread alone goes to the big cores from a load of 8 on, and to the middle cores,
/// where there are any, from 5 to 7.
pub proof fn law_cores_split(
    a: Seq<Seq<char>>,
    b: Seq<Seq<char>>,
    one: Seq<char>,
    mid: Seq<char>,
)
    ensures
        cache::big_threads(a + b) == cache::big_threads(a) + cache::big_threads(b),
        cache::mid_threads(a + b, mid) == cache::mid_threads(a, mid) + cache::mid_threads(b, mid),
        cache::load_of(one) >= 8 ==> cache::big_threads(seq![one]) == seq![one],
        cache::load_of(one) < 8 ==> cache::big_threads(seq![one]).len() == 0,
        mid.len() > 0 && (cache::load_of(one) == 5 || cache::load_of(one) == 6 || cache::load_of(
            one,
        ) == 7) ==> cache::mid_threads(seq![one], mid) == seq![one],
        mid.len() == 0 || cache::load_of(one) >= 8 || cache::load_of(one) <= 4
            ==> cache::mid_threads(seq![one], mid).len() == 0,
{
    lemma_loaded_split(a, b, one, 8, 11);
    lemma_loaded_split(a, b, one, 5, 8);
    law_loads(one);
    if mid.len() == 0 {
        assert(cache::mid_threads(a + b, mid) =~= cache::mid_threads(a, mid) + cache::mid_threads(
            b,
            mid,
        ));
    }
}

/// The threads with a load between two bounds of two groups.
proof fn lemma_loaded_split(
    a: Seq<Seq<char>>,
    b: Seq<Seq<char>>,
    one: Seq<char>,
    low: int,
    high: int,
)
    ensures
        cache::loaded_between(a + b, low, high) == cache::loaded_between(a, low, high)
            + cache::loaded_between(b, low, high),
        cache::loaded_between(seq![one], low, high) == (if low <= cache::load_of(one) < high {
            seq![one]
        } else {
            Seq::empty()
        }),
    decreases b.len(),
{
    let none = Seq::<Seq<char>>::empty();
    assert(seq![one].drop_last() =~= none);
    assert(cache::loaded_between(none, low, high) =~= none);
    assert(none.push(one) =~= seq![one]);
    if b.len() == 0 {
        assert(a + b =~= a);
    } else {
        lemma_loaded_split(a, b.drop_last(), one, low, high);
        assert((a + b).drop_last() =~= a + b.drop_last());
        assert((a + b).last() == b.last());
    }
}

/// Every thread with a load of at least 8 is among those for the big cores, and where there are
/// middle cores every one with a load of 5 to 7 is among theirs. No other thread is among them.
/// So where there are middle cores no thread with a load of at least 5 is left to the little
/// ones.
pub proof fn law_cores_by_load(names: Seq<Seq<char>>, name: Seq<char>, mid: Seq<char>)
    ensures
        cache::big_threads(names).contains(name) <==> names.contains(name) && cache::load_of(name)
            >= 8,
        mid.len() > 0 ==> (cache::mid_threads(names, mid).contains(name) <==> names.contains(name)
            && 5 <= cache::load_of(name) <= 7),
        mid.len() == 0 ==> cache::mid_threads(names, mid) == Seq::<Seq<char>>::empty(),
        mid.len() > 0 && names.contains(name) && cache::load_of(name) >= 5 ==> cache::big_threads(
            names,
        ).contains(name) || cache::mid_threads(names, mid).contains(name),
{
    lemma_loaded_contains(names, name, 8, 11);
    lemma_loaded_contains(names, name, 5, 8);
    law_loads(name);
}

/// A thread is among those with a load between two bounds just where it has such a load.
proof fn lemma_loaded_contains(names: Seq<Seq<char>>, name: Seq<char>, low: int, high: int)
    ensures
        cache::loaded_between(names, low, high).contains(name) <==> names.contains(name) && low
            <= cache::load_of(name) < high,
    decreases names.len(),
{
    if names.len() > 0 {
        let w = names.drop_last();
        let x = cache::loaded_between(w, low, high);
        lemma_loaded_contains(w, name, low, high);
        if names.contains(name) {
            let k = choose|k: int| 0 <= k < names.len() && names[k] == name;
            if k < w.len() {
                assert(w[k] == name);
            }
        }
        if w.contains(name) {
            let k = choose|k: int| 0 <= k < w.len() && w[k] == name;
            assert(names[k] == name);
        }
        let y = x.push(names.last());
        if x.contains(name) {
            let k = choose|k: int| 0 <= k < x.len() && x[k] == name;
            assert(y[k] == name);
        }
        assert(y[x.len() as int] == names.last());
        assert(names[names.len() - 1] == names.last());
        if y.contains(name) && !x.contains(name) {
            let k = choose|k: int| 0 <= k < y.len() && y[k] == name;
            if k < x.len() {
                assert(x[k] == name);
            }
        }
    }
}

/// A thread with a higher load never gets weaker cores than one with a lower load.
pub proof fn law_more_load_no_weaker_cores(
    names: Seq<Seq<char>>,
    more: Seq<char>,
    less: Seq<char>,
    mid: Seq<char>,
)
    requires
        names.contains(more),
        names.contains(less),
        cache::load_of(more) >= cache::load_of(less),
    ensures
        cache::big_threads(names).contains(less) ==> cache::big_threads(names).contains(more),
        cache::mid_threads(names, mid).contains(less) ==> cache::big_threads(names).contains(more)
            || cache::mid_threads(names, mid).contains(more),
{
    law_cores_by_load(names, more, mid);
    law_cores_by_load(names, less, mid);
}

/// The threads of a package are those of every process of that name, in their order, and no
/// others.
pub proof fn law_threads_of_package(
    a: Seq<(i32, String, Vec<(i32, String)>)>,
    b: Seq<(i32, String, Vec<(i32, String)>)>,
    one: (i32, String, Vec<(i32, String)>),
    pkg: Seq<char>,
    i: int,
)
    ensures
        cache::package_threads(a + b, pkg) == cache::package_threads(a, pkg)
            + cache::package_threads(b, pkg),
        one.1@ != pkg ==> cache::package_threads(seq![one], pkg).len() == 0,
        one.1@ == pkg ==> cache::package_threads(seq![one], pkg).len() == one.2@.len(),
        one.1@ == pkg && 0 <= i < one.2@.len() ==> cache::package_threads(seq![one], pkg)[i]
            == one.2@[i].1@,
    decreases b.len(),
{
    let none = Seq::<(i32, String, Vec<(i32, String)>)>::empty();
    assert(seq![one].drop_last() =~= none);
    assert(cache::package_threads(none, pkg) =~= Seq::empty());
    if b.len() == 0 {
        assert(a + b =~= a);
        assert(cache::package_threads(a, pkg) + cache::package_threads(b, pkg)
            =~= cache::package_threads(a, pkg));
    } else {
        law_threads_of_package(a, b.drop_last(), one, pkg, i);
        assert((a + b).drop_last() =~= a + b.drop_last());
        assert((a + b).last() == b.last());
        assert(cache::package_threads(a + b, pkg) =~= cache::package_threads(a, pkg)
            + cache::package_threads(b, pkg));
    }
}

/// Every thread of every process of the package is among the threads of the package, and goes by
/// its load to the big or the middle cores.
pub proof fn law_every_thread_goes_by_load(
    all: Seq<(i32, String, Vec<(i32, String)>)>,
    i: int,
    j: int,
    mid: Seq<char>,
)
    requires
        0 <= i < all.len(),
        0 <= j < all[i].2@.len(),
    ensures
        ({
            let names = cache::package_threads(all, all[i].1@);
            let name = all[i].2@[j].1@;
            &&& names.contains(name)
            &&& cache::big_threads(names).contains(name) <==> cache::load_of(name) >= 8
            &&& mid.len() > 0 ==> (cache::mid_threads(names, mid).contains(name) <==> 5
                <= cache::load_of(name) <= 7)
        }),
{
    let pkg = all[i].1@;
    let a = all.take(i);
    let one = seq![all[i]];
    let b = all.skip(i + 1);
    law_threads_of_package(a, one + b, all[i], pkg, j);
    law_threads_of_package(one, b, all[i], pkg, j);
    assert(all =~= a + (one + b));
    let names = cache::package_threads(all, pkg);
    let at = cache::package_threads(a, pkg).len() + j;
    assert(names[at as int] == all[i].2@[j].1@);
    law_cores_by_load(names, all[i].2@[j].1@, mid);
}

/// A thread on some cores: the rule that puts it there.
pub open spec fn puts(
    r: config::RuleView,
    pkg: Seq<char>,
    thread: Seq<char>,
    cpus: Seq<char>,
) -> bool {
    r.pkg == pkg && r.thread == thread && r.cpus == cpus && r.prio == config::prio_of(thread)
        && r.cpuset_dir == Seq::<char>::empty()
}

/// The rules of the entry that is made for a package.
pub open spec fn rules_made(
    pkg: Seq<char>,
    names: Seq<Seq<char>>,
    big: Seq<char>,
    mid: Seq<char>,
    little: Seq<char>,
) -> Seq<config::RuleView> {
    config::entry_rules(cache::made_entry(pkg, names, big, mid, little), Seq::empty())
}

/// The entry that is made for a package puts the package on the little cores.
pub proof fn law_entry_places_package(
    pkg: Seq<char>,
    names: Seq<Seq<char>>,
    big: Seq<char>,
    mid: Seq<char>,
    little: Seq<char>,
)
    ensures
        ({
            let all = rules_made(pkg, names, big, mid, little);
            all.len() > 0 && all[0].pkg == pkg && all[0].thread == Seq::<char>::empty()
                && all[0].cpus == little && all[0].prio == 200 && all[0].cpuset_dir == Seq::<
                char,
            >::empty()
        }),
{
    let first = law_entry_rules_in_order(pkg, names, big, mid, little);
}

/// The entry that is made for a package puts every thread with a load of at least 8 on the big
/// cores and, where there are middle cores, every one with a load of 5 to 7 on those.
pub proof fn law_entry_places_threads(
    pkg: Seq<char>,
    names: Seq<Seq<char>>,
    big: Seq<char>,
    mid: Seq<char>,
    little: Seq<char>,
    name: Seq<char>,
)
    requires
        names.contains(name),
    ensures
        cache::load_of(name) >= 8 ==> exists|m: int|
            0 < m < rules_made(pkg, names, big, mid, little).len() && puts(
                #[trigger] rules_made(pkg, names, big, mid, little)[m],
                pkg,
                name,
                big,
            ),
        mid.len() > 0 && 5 <= cache::load_of(name) <= 7 ==> exists|m: int|
            0 < m < rules_made(pkg, names, big, mid, little).len() && puts(
                #[trigger] rules_made(pkg, names, big, mid, little)[m],
                pkg,
                name,
                mid,
            ),
{
    let on_big = cache::big_threads(names);
    let on_mid = cache::mid_threads(names, mid);
    let all = rules_made(pkg, names, big, mid, little);
    let first = law_entry_rules_in_order(pkg, names, big, mid, little);
    law_cores_by_load(names, name, mid);
    if cache::load_of(name) >= 8 {
        let j = choose|j: int| 0 <= j < on_big.len() && on_big[j] == name;
        let m: int = if first {
            1 + j
        } else {
            1 + on_mid.len() + j
        };
        assert(puts(all[m], pkg, cache::big_threads(names)[j], big));
    }
    if mid.len() > 0 && 5 <= cache::load_of(name) <= 7 {
        let j = choose|j: int| 0 <= j < on_mid.len() && on_mid[j] == name;
        let m: int = if first {
            1 + on_big.len() + j
        } else {
            1 + j
        };
        assert(puts(all[m], pkg, cache::mid_threads(names, mid)[j], mid));
    }
}

/// The entry that is made for a package has no other rules for threads than those that put a
/// thread with a load of at least 8 on the big cores, or one with a load of 5 to 7 on the middle
/// ones.
pub proof fn law_entry_places_no_others(
    pkg: Seq<char>,
    names: Seq<Seq<char>>,
    big: Seq<char>,
    mid: Seq<char>,
    little: Seq<char>,
    m: int,
)
    requires
        0 < m < rules_made(pkg, names, big, mid, little).len(),
    ensures
        ({
            let r = rules_made(pkg, names, big, mid, little)[m];
            names.contains(r.thread) && ((cache::load_of(r.thread) >= 8 && puts(
                r,
                pkg,
                r.thread,
                big,
            )) || (mid.len() > 0 && 5 <= cache::load_of(r.thread) <= 7 && puts(
                r,
                pkg,
                r.thread,
                mid,
            )))
        }),
{
    let on_big = cache::big_threads(names);
    let on_mid = cache::mid_threads(names, mid);
    let first = law_entry_rules_in_order(pkg, names, big, mid, little);
    let k: int = if first {
        m - 1
    } else {
        m - 1 - on_mid.len()
    };
    if 0 <= k < on_big.len() {
        let t = cache::big_threads(names)[k];
        assert(on_big.contains(t));
        law_cores_by_load(names, t, mid);
    } else {
        let i: int = if first {
            m - 1 - on_big.len()
        } else {
            m - 1
        };
        let t = cache::mid_threads(names, mid)[i];
        assert(on_mid.contains(t));
        law_cores_by_load(names, t, mid);
    }
}

/// The rules of an entry that is made for a package stand in the order of the texts of their
/// CPUs, and those for the same CPUs in the order of the threads, the big cores first.
pub proof fn law_entry_rules_in_order(
    pkg: Seq<char>,
    names: Seq<Seq<char>>,
    big: Seq<char>,
    mid: Seq<char>,
    little: Seq<char>,
) -> (first: bool)
    ensures
        first == (big == mid || text::text_before(big, mid) || cache::mid_threads(names, mid).len()
            == 0),
        rules_made(pkg, names, big, mid, little).len() == 1 + cache::big_threads(names).len()
            + cache::mid_threads(names, mid).len(),
        rules_made(pkg, names, big, mid, little)[0].pkg == pkg,
        rules_made(pkg, names, big, mid, little)[0].thread == Seq::<char>::empty(),
        rules_made(pkg, names, big, mid, little)[0].cpus == little,
        rules_made(pkg, names, big, mid, little)[0].prio == 200,
        rules_made(pkg, names, big, mid, little)[0].cpuset_dir == Seq::<char>::empty(),
        forall|k: int|
            0 <= k < cache::big_threads(names).len() ==> puts(
                rules_made(pkg, names, big, mid, little)[if first {
                    1 + k
                } else {
                    1 + cache::mid_threads(names, mid).len() + k
                }],
                pkg,
                #[trigger] cache::big_threads(names)[k],
                big,
            ),
        forall|k: int|
            0 <= k < cache::mid_threads(names, mid).len() ==> puts(
                rules_made(pkg, names, big, mid, little)[if first {
                    1 + cache::big_threads(names).len() + k
                } else {
                    1 + k
                }],
                pkg,
                #[trigger] cache::mid_threads(names, mid)[k],
                mid,
            ),
{
    let on_big = cache::big_threads(names);
    let on_mid = cache::mid_threads(names, mid);
    let fields = cache::core_fields(big, mid, on_big, on_mid);
    cache::law_made_rules(pkg, names, big, mid, little);
    let f = cache::field(big, cache::text_array(on_big));
    let g = cache::field(mid, cache::text_array(on_mid));
    let h = cache::field(big, cache::text_array(on_big + on_mid));
    lemma_rules_of_list(pkg, big, on_big);
    lemma_rules_of_list(pkg, mid, on_mid);
    lemma_rules_of_list(pkg, big, on_big + on_mid);
    rules::law_thread_rules(pkg, seq![f], seq![g], f, 0);
    rules::law_thread_rules(pkg, seq![g], seq![f], g, 0);
    assert(seq![f] + seq![g] =~= seq![f, g]);
    assert(seq![g] + seq![f] =~= seq![g, f]);
    let none = Seq::<Field>::empty();
    assert(config::thread_rules(pkg, none).len() == 0);
    let part = config::thread_rules(pkg, fields);
    assert(part.len() == on_big.len() + on_mid.len());
    let first = big == mid || text::text_before(big, mid) || on_mid.len() == 0;
    assert(rules_made(pkg, names, big, mid, little).drop_first() =~= part);
    assert forall|k: int| 0 <= k < on_big.len() implies puts(
        rules_made(pkg, names, big, mid, little)[if first {
            1 + k
        } else {
            1 + on_mid.len() + k
        }],
        pkg,
        #[trigger] cache::big_threads(names)[k],
        big,
    ) by {
        assert(puts(config::thread_rules(pkg, seq![f])[k], pkg, on_big[k], big));
        assert(puts(
            config::thread_rules(pkg, seq![h])[k],
            pkg,
            (on_big + on_mid)[k],
            big,
        ));
    }
    assert forall|k: int| 0 <= k < on_mid.len() implies puts(
        rules_made(pkg, names, big, mid, little)[if first {
            1 + on_big.len() + k
        } else {
            1 + k
        }],
        pkg,
        #[trigger] cache::mid_threads(names, mid)[k],
        mid,
    ) by {
        assert(puts(config::thread_rules(pkg, seq![g])[k], pkg, on_mid[k], mid));
        assert(puts(
            config::thread_rules(pkg, seq![h])[on_big.len() + k],
            pkg,
            (on_big + on_mid)[on_big.len() + k],
            big,
        ));
    }
    first
}

/// The rules that a list of names gives.
proof fn lemma_rules_of_list(pkg: Seq<char>, cpus: Seq<char>, names: Seq<Seq<char>>)
    ensures
        ({
            let one = seq![cache::field(cpus, cache::text_array(names))];
            config::thread_rules(pkg, one).len() == names.len()
        }),
        forall|k: int|
            0 <= k < names.len() ==> puts(
                #[trigger] config::thread_rules(
                    pkg,
                    seq![cache::field(cpus, cache::text_array(names))],
                )[k],
                pkg,
                names[k],
                cpus,
            ),
{
    let f = cache::field(cpus, cache::text_array(names));
    cache::lemma_text_array(names);
    rules::law_thread_rules(pkg, seq![f], seq![f], f, 0);
    assert forall|k: int| 0 <= k < names.len() implies puts(
        #[trigger] config::thread_rules(
            pkg,
            seq![cache::field(cpus, cache::text_array(names))],
        )[k],
        pkg,
        names[k],
        cpus,
    ) by {
        rules::law_thread_rules(pkg, seq![f], seq![f], f, k);
    }
}

/// A plain name: not empty, and without the signs of a pattern.
pub open spec fn plain_name(s: Seq<char>) -> bool {
    s.len() > 0 && !s.contains('*') && !s.contains('?') && vstd::utf8::encode_utf8(s).len()
        <= 2147480000
}

/// Under the rules of the entry that is made for a package, a thread with a load of at least 8
/// runs on the big cores, one with a load of 5 to 7 on the middle ones where there are any, and
/// one with less on the little ones: in the package and in every part of it.
pub proof fn law_adopted_threads_run(
    pkg: Seq<char>,
    names: Seq<Seq<char>>,
    big: Seq<char>,
    mid: Seq<char>,
    little: Seq<char>,
    name: Seq<char>,
    proc: Seq<char>,
)
    requires
        plain_name(pkg),
        forall|k: int| 0 <= k < names.len() ==> plain_name(#[trigger] names[k]),
        names.contains(name),
        proc == pkg || exists|part: Seq<char>| proc == #[trigger] (pkg + seq![':'] + part),
    ensures
        cache::load_of(name) >= 8 ==> process::placement(
            rules_made(pkg, names, big, mid, little),
            proc,
            name,
        ) == cpuset::list_mask(big),
        mid.len() > 0 && 5 <= cache::load_of(name) <= 7 ==> process::placement(
            rules_made(pkg, names, big, mid, little),
            proc,
            name,
        ) == cpuset::list_mask(mid),
        cache::load_of(name) < 5 || (mid.len() == 0 && cache::load_of(name) < 8)
            ==> process::placement(rules_made(pkg, names, big, mid, little), proc, name)
            == cpuset::list_mask(little),
{
    let all = rules_made(pkg, names, big, mid, little);
    law_entry_places_package(pkg, names, big, mid, little);
    law_loads(name);
    assert(placing::says(pkg, pkg));
    assert(placing::says(name, name)) by {
        let k = choose|k: int| 0 <= k < names.len() && names[k] == name;
        assert(plain_name(names[k]));
    }
    if proc != pkg {
        assert(placing::part_of(pkg, proc));
    }
    assert forall|j: int| 0 < j < all.len() implies (#[trigger] all[j]).pkg == pkg
        && names.contains(all[j].thread) && plain_name(all[j].thread) && all[j].prio
        == config::prio_of(all[j].thread) && config::prio_of(all[j].thread) > 200 && (
    placing::meant_for(all[j], proc, name) <==> all[j].thread == name) by {
        law_entry_places_no_others(pkg, names, big, mid, little, j);
        let t = all[j].thread;
        let k = choose|k: int| 0 <= k < names.len() && names[k] == t;
        assert(plain_name(names[k]));
        placing::lemma_plain_pattern(t, name);
        lemma_plain_priority(t);
    }
    if cache::load_of(name) >= 8 || (mid.len() > 0 && cache::load_of(name) >= 5) {
        law_entry_places_threads(pkg, names, big, mid, little, name);
        let m = if cache::load_of(name) >= 8 {
            choose|m: int| 0 < m < all.len() && puts(#[trigger] all[m], pkg, name, big)
        } else {
            choose|m: int| 0 < m < all.len() && puts(#[trigger] all[m], pkg, name, mid)
        };
        let i = lemma_first_rule(all, name, m);
        law_entry_places_no_others(pkg, names, big, mid, little, i);
        assert(all[i].thread == name);
        assert forall|j: int|
            0 <= j < all.len() && placing::meant_for(
                #[trigger] all[j],
                proc,
                name,
            ) implies placing::weight(all[j]) < placing::weight(all[i]) || (placing::weight(all[j])
            == placing::weight(all[i]) && i <= j) by {
            if j > 0 {
                assert(all[j].thread == name);
            }
        }
        placing::law_heaviest_rule_places(all, proc, name, i);
    } else {
        assert forall|j: int| 0 <= j < all.len() && j > 0 implies !placing::meant_for(
            #[trigger] all[j],
            proc,
            name,
        ) by {
            law_entry_places_no_others(pkg, names, big, mid, little, j);
        }
        placing::law_heaviest_rule_places(all, proc, name, 0);
    }
}

/// The priority of a plain name is above that of a package.
proof fn lemma_plain_priority(s: Seq<char>)
    requires
        plain_name(s),
    ensures
        config::prio_of(s) > 200,
{
}

/// There is a first rule for a thread where there is one.
proof fn lemma_first_rule(rules: Seq<config::RuleView>, name: Seq<char>, m: int) -> (i: int)
    requires
        0 < m < rules.len(),
        rules[m].thread == name,
    ensures
        0 < i <= m,
        rules[i].thread == name,
        forall|j: int| 0 < j < i ==> (#[trigger] rules[j]).thread != name,
    decreases m,
{
    if exists|j: int| 0 < j < m && (#[trigger] rules[j]).thread == name {
        let j = choose|j: int| 0 < j < m && (#[trigger] rules[j]).thread == name;
        lemma_first_rule(rules, name, j)
    } else {
        m
    }
}

/// What stands in the entry that is made for a package.
pub proof fn law_entry_made(
    pkg: Seq<char>,
    names: Seq<Seq<char>>,
    big: Seq<char>,
    mid: Seq<char>,
    little: Seq<char>,
)
    ensures
        ({
            let e = cache::made_entry(pkg, names, big, mid, little);
            &&& e.get("friendly"@) == Tree::Text("[auto] "@ + pkg)
            &&& e.get("packages"@) is Array && e.get("packages"@)->Array_0 == seq![
                Tree::Text(pkg),
            ]
            &&& e.get("cpuset"@).get("other"@) == Tree::Text(little)
            &&& (forall|k: int| 0 <= k < names.len() ==> cache::load_of(#[trigger] names[k]) < 5)
                ==> e.get("cpuset"@).get("comm"@) is Null
        }),
{
    reveal_strlit("friendly");
    reveal_strlit("comm");
    reveal_strlit("other");
    cache::lemma_made_entry(pkg, names, big, mid, little);
    let e = cache::made_entry(pkg, names, big, mid, little);
    documents::law_get_entry(e->Object_0, 0);
    assert(cache::text_array(seq![pkg])->Array_0 =~= seq![Tree::Text(pkg)]);
    if forall|k: int| 0 <= k < names.len() ==> cache::load_of(#[trigger] names[k]) < 5 {
        let on_big = cache::big_threads(names);
        let on_mid = cache::mid_threads(names, mid);
        if on_big.len() > 0 {
            assert(on_big.contains(on_big[0]));
            law_cores_by_load(names, on_big[0], mid);
            let k = choose|k: int| 0 <= k < names.len() && names[k] == on_big[0];
            assert(cache::load_of(names[k]) < 5);
        }
        if on_mid.len() > 0 {
            assert(on_mid.contains(on_mid[0]));
            law_cores_by_load(names, on_mid[0], mid);
            let k = choose|k: int| 0 <= k < names.len() && names[k] == on_mid[0];
            assert(cache::load_of(names[k]) < 5);
        }
        let c = e.get("cpuset"@);
        assert(c->Object_0.len() == 1);
        assert("other"@.len() != "comm"@.len());
        documents::law_get_nothing(c, "comm"@);
    }
}

/// The texts are written as an array of them, one for one.
pub open spec fn lists(t: Tree, names: Seq<Seq<char>>) -> bool {
    t matches Tree::Array(v) && v.len() == names.len() && forall|i: int|
        0 <= i < v.len() ==> #[trigger] v[i] == Tree::Text(names[i])
}

/// The entry that is made for a package has just three parts: its title, its packages and its
/// cpuset. The cpuset has the little cores and, where any thread goes to others, the lists of
/// these threads: one for each kind of cores that has any, in the order of their texts, and one
/// for both where they are the same cores.
pub proof fn law_entry_layout(
    pkg: Seq<char>,
    names: Seq<Seq<char>>,
    big: Seq<char>,
    mid: Seq<char>,
    little: Seq<char>,
)
    ensures
        ({
            let e = cache::made_entry(pkg, names, big, mid, little)->Object_0;
            let c = e[2].value->Object_0;
            let on_big = cache::big_threads(names);
            let on_mid = cache::mid_threads(names, mid);
            &&& cache::made_entry(pkg, names, big, mid, little) is Object
            &&& e.len() == 3
            &&& e[0].key == "friendly"@ && e[1].key == "packages"@ && e[2].key == "cpuset"@
            &&& e[0].value == Tree::Text("[auto] "@ + pkg)
            &&& lists(e[1].value, seq![pkg])
            &&& e[2].value is Object
            &&& c.len() > 0 && c[0].key == "other"@ && c[0].value == Tree::Text(little)
            &&& on_big.len() == 0 && on_mid.len() == 0 <==> c.len() == 1
            &&& c.len() <= 2
            &&& on_big.len() > 0 || on_mid.len() > 0 ==> {
                let f = c[1].value->Object_0;
                &&& c[1].key == "comm"@ && c[1].value is Object
                &&& on_big.len() > 0 && on_mid.len() > 0 && big != mid <==> f.len() == 2
                &&& 1 <= f.len() <= 2
                &&& on_mid.len() == 0 ==> f[0].key == big && lists(f[0].value, on_big)
                &&& on_big.len() == 0 ==> f[0].key == mid && lists(f[0].value, on_mid)
                &&& on_big.len() > 0 && on_mid.len() > 0 && big == mid ==> f[0].key == big && lists(
                    f[0].value,
                    on_big + on_mid,
                )
                &&& f.len() == 2 && text::text_before(big, mid) ==> f[0].key == big && lists(
                    f[0].value,
                    on_big,
                ) && f[1].key == mid && lists(f[1].value, on_mid)
                &&& f.len() == 2 && !text::text_before(big, mid) ==> f[0].key == mid && lists(
                    f[0].value,
                    on_mid,
                ) && f[1].key == big && lists(f[1].value, on_big)
            }
        }),
{
    let on_big = cache::big_threads(names);
    let on_mid = cache::mid_threads(names, mid);
    assert(lists(cache::text_array(seq![pkg]), seq![pkg]));
    assert(lists(cache::text_array(on_big), on_big));
    assert(lists(cache::text_array(on_mid), on_mid));
    assert(lists(cache::text_array(on_big + on_mid), on_big + on_mid));
}

/// Of the entries of a cache the newest for a package counts: one that comes last takes the place
/// of all before it for that package. An entry without a package changes nothing.
pub proof fn law_newest_entry_counts(v: Seq<Tree>, e: Tree)
    ensures
        config::packages(e).len() == 0 ==> cache::cached_rules(v.push(e)) == cache::cached_rules(v)
            && cache::cached_packages(v.push(e)) == cache::cached_packages(v)
            && cache::cached_count(v.push(e)) == cache::cached_count(v),
        config::packages(e).len() > 0 ==> {
            let others = v.filter(
                |x: Tree|
                    config::packages(x).len() == 0 || config::packages(x)[0] != config::packages(
                        e,
                    )[0],
            );
            &&& cache::cached_rules(v.push(e)) == cache::cached_rules(others) + config::entry_rules(
                e,
                Seq::empty(),
            )
            &&& cache::cached_packages(v.push(e)) == cache::cached_packages(others).union(
                config::packages(e).to_set(),
            )
            &&& cache::cached_count(v.push(e)) == cache::cached_count(others) + 1
        },
        cache::cached_rules(Seq::empty()).len() == 0,
        cache::cached_packages(Seq::empty()) == Set::<Seq<char>>::empty(),
        cache::cached_count(Seq::empty()) == 0,
{
    if config::packages(e).len() > 0 {
        let pkg = config::packages(e)[0];
        cache::lemma_last_counts(v, e, pkg);
        let f = |x: Tree|
            config::packages(x).len() == 0 || config::packages(x)[0] != config::packages(e)[0];
        let g = |x: Tree| !cache::for_package(x, pkg);
        assert(f =~= g);
    } else {
        lemma_void_entry(v, e);
    }
}

/// An entry without a package behind the others changes nothing.
proof fn lemma_void_entry(v: Seq<Tree>, e: Tree)
    requires
        config::packages(e).len() == 0,
    ensures
        cache::cached_rules(v.push(e)) == cache::cached_rules(v),
        cache::cached_packages(v.push(e)) == cache::cached_packages(v),
        cache::cached_count(v.push(e)) == cache::cached_count(v),
    decreases v.len(),
{
    let all = v.push(e);
    if v.len() == 0 {
        assert(all.drop_first() =~= v);
        assert(!cache::counts(all, 0));
    } else {
        lemma_void_entry(v.drop_first(), e);
        assert(all.drop_first() =~= v.drop_first().push(e));
        assert(all[0] == v[0]);
        if cache::counts(v, 0) {
            assert forall|j: int|
                0 < j < all.len() && config::packages(#[trigger] all[j]).len()
                    > 0 implies config::packages(all[j])[0] != config::packages(all[0])[0] by {
                assert(all[j] == v[j]);
            }
        }
        if cache::counts(all, 0) {
            assert forall|j: int|
                0 < j < v.len() && config::packages(#[trigger] v[j]).len()
                    > 0 implies config::packages(v[j])[0] != config::packages(v[0])[0] by {
                assert(all[j] == v[j]);
            }
        }
    }
}

/// Saving drops the entries whose list of packages starts with the package, keeps the others in
/// their order, and puts the new entry behind them; what is no array holds no entries.
pub proof fn law_saved(a: Seq<Tree>, b: Seq<Tree>, e: Tree, old: Tree, pkg: Seq<char>, entry: Tree)
    ensures
        cache::without(a + b, pkg) == cache::without(a, pkg) + cache::without(b, pkg),
        e.get("packages"@).at(0) == Tree::Text(pkg) ==> cache::without(seq![e], pkg).len() == 0,
        e.get("packages"@).at(0) != Tree::Text(pkg) ==> cache::without(seq![e], pkg) == seq![e],
        old is Array ==> cache::saved(old, pkg, entry) == Tree::Array(
            cache::without(old->Array_0, pkg).push(entry),
        ),
        !(old is Array) ==> cache::saved(old, pkg, entry) == Tree::Array(seq![entry]),
    decreases b.len(),
{
    let none = Seq::<Tree>::empty();
    assert(seq![e].drop_last() =~= none);
    assert(cache::without(none, pkg) =~= none);
    assert(none.push(e) =~= seq![e]);
    assert(none.push(entry) =~= seq![entry]);
    if b.len() == 0 {
        assert(a + b =~= a);
    } else {
        law_saved(a, b.drop_last(), e, old, pkg, entry);
        assert((a + b).drop_last() =~= a + b.drop_last());
        assert((a + b).last() == b.last());
    }
}

/// A cache that is there is read where its text begins, after white space, with a bracket and is
/// a document; otherwise the cache is empty.
pub proof fn law_old_cache(gap: Seq<char>, c: char, rest: Seq<char>)
    requires
        texts::blank(gap),
        !text::white(c),
    ensures
        c == '[' ==> match document::json_document(gap + seq![c] + rest) {
            Some(root) => cache::old_cache(gap + seq![c] + rest) == root,
            None => cache::old_cache(gap + seq![c] + rest) == Tree::Array(Seq::empty()),
        },
        c != '[' ==> cache::old_cache(gap + seq![c] + rest) == Tree::Array(Seq::empty()),
        cache::old_cache(gap) == Tree::Array(Seq::empty()),
{
    texts::law_trimmed_blank(gap);
    let s = gap + seq![c] + rest;
    let n = lemma_solid_end(seq![c] + rest);
    let body = (seq![c] + rest).take(n);
    let back = (seq![c] + rest).skip(n);
    assert(s =~= gap + body + back);
    assert(body[0] == c);
    texts::law_trimmed(gap, body, back);
}

/// A text that begins with no white space ends, but for white space, with none either.
proof fn lemma_solid_end(s: Seq<char>) -> (n: int)
    requires
        s.len() > 0,
        !text::white(s[0]),
    ensures
        0 < n <= s.len(),
        !text::white(s.take(n).last()),
        texts::blank(s.skip(n)),
    decreases s.len(),
{
    let last = s.len() - 1;
    if text::white(s[last]) {
        let n = lemma_solid_end(s.take(last));
        assert(s.take(last).take(n) =~= s.take(n));
        assert forall|i: int| 0 <= i < s.skip(n).len() implies text::white(
            #[trigger] s.skip(n)[i],
        ) by {
            if i < last - n {
                assert(s.take(last).skip(n)[i] == s.skip(n)[i]);
            }
        }
        n
    } else {
        assert(s.take(s.len() as int) =~= s);
        s.len() as int
    }
}

/// The name ends with `end`.
pub open spec fn ends(name: Seq<char>, end: Seq<char>) -> bool {
    exists|front: Seq<char>| name == #[trigger] (front + end)
}

/// The name begins with `start`.
pub open spec fn begins(name: Seq<char>, start: Seq<char>) -> bool {
    exists|back: Seq<char>| name == #[trigger] (start + back)
}

/// What `is_suffix_of` and `is_prefix_of` say, by what is put together.
proof fn lemma_ends(name: Seq<char>, t: Seq<char>)
    ensures
        t.is_suffix_of(name) <==> ends(name, t),
        t.is_prefix_of(name) <==> begins(name, t),
{
    if t.is_suffix_of(name) {
        assert(name =~= name.take(name.len() - t.len()) + t);
    }
    if t.is_prefix_of(name) {
        assert(name =~= t + name.skip(t.len() as int));
    }
    if ends(name, t) {
        let front = choose|front: Seq<char>| name == #[trigger] (front + t);
        assert(name.subrange(name.len() - t.len(), name.len() as int) =~= t);
    }
    if begins(name, t) {
        let back = choose|back: Seq<char>| name == #[trigger] (t + back);
        assert(name.subrange(0, t.len() as int) =~= t);
    }
}

/// No entry is made for a process that serves a package behind one of these colons, for the two
/// media and account processes of the system, and for those of the vendor.
pub proof fn law_blacklist(name: Seq<char>)
    ensures
        cache::blacklisted(name) <==> (ends(name, ":widgetProvider"@) || ends(
            name,
            ":searchDataService"@,
        ) || ends(name, ":coreService"@) || ends(name, ":cognitionService"@) || ends(name, ":bert"@)
            || ends(name, ":bertAlgo"@) || ends(name, ":privacy"@) || ends(name, ":kit7"@) || ends(
            name,
            ":services"@,
        ) || ends(name, ":daemon"@) || name == "android.process.media"@ || name
            == "android.process.acore"@ || begins(name, "com.qualcomm."@) || begins(name, ".qti"@)
            || begins(name, ".qms"@) || begins(name, ".cacert"@) || begins(
            name,
            ".dataservices"@,
        )),
{
    lemma_ends(name, ":widgetProvider"@);
    lemma_ends(name, ":searchDataService"@);
    lemma_ends(name, ":coreService"@);
    lemma_ends(name, ":cognitionService"@);
    lemma_ends(name, ":bert"@);
    lemma_ends(name, ":bertAlgo"@);
    lemma_ends(name, ":privacy"@);
    lemma_ends(name, ":kit7"@);
    lemma_ends(name, ":services"@);
    lemma_ends(name, ":daemon"@);
    lemma_ends(name, "com.qualcomm."@);
    lemma_ends(name, ".qti"@);
    lemma_ends(name, ".qms"@);
    lemma_ends(name, ".cacert"@);
    lemma_ends(name, ".dataservices"@);
}

/// The values of a list are what each of them says.
pub proof fn law_trees(v: Seq<Json>, i: int)
    ensures
        cache::trees(v).len() == v.len(),
        0 <= i < v.len() ==> cache::trees(v)[i] == v[i]@,
{
}

} // verus!
