//! How sets of CPUs are written and read.

use vstd::prelude::*;

use crate::config;
use crate::cpuset;
use crate::laws::texts;
use crate::numeral;
use crate::text;

verus! {

/// The CPUs of a mask: a bit that is shifted by the number of a CPU is that CPU alone, and masks
/// that are put together hold the CPUs of both.
pub proof fn law_mask_bits(a: u64, b: u64, cpu: u64, c: u64)
    requires
        cpu < 64,
        c < 64,
    ensures
        cpuset::bit(1u64 << cpu, c as int) <==> c == cpu,
        cpuset::bit(a | b, c as int) <==> cpuset::bit(a, c as int) || cpuset::bit(b, c as int),
        !cpuset::bit(0, c as int),
{
    assert(((1u64 << cpu) >> c) & 1 == 1 <==> c == cpu) by (bit_vector)
        requires
            cpu < 64,
            c < 64,
    ;
    assert(((a | b) >> c) & 1 == 1 <==> ((a >> c) & 1 == 1 || (b >> c) & 1 == 1)) by (bit_vector);
    assert((0u64 >> c) & 1 == 0) by (bit_vector);
}

/// A list of CPUs names what the items on either side of a comma name.
pub proof fn law_list_of_items(a: Seq<char>, b: Seq<char>, cpu: int)
    ensures
        cpuset::list_covers(a + seq![','] + b, cpu) <==> cpuset::list_covers(a, cpu)
            || cpuset::list_covers(b, cpu),
{
    lemma_pieces_split(a, b);
    let x = text::pieces(a, ',');
    let y = text::pieces(b, ',');
    if cpuset::items_cover(x + y, cpu) {
        let i = choose|i: int|
            0 <= i < (x + y).len() && cpuset::item_covers(#[trigger] (x + y)[i], cpu);
        if i < x.len() {
            assert(cpuset::item_covers(x[i], cpu));
        } else {
            assert(cpuset::item_covers(y[i - x.len()], cpu));
        }
    }
    if cpuset::items_cover(x, cpu) {
        let i = choose|i: int| 0 <= i < x.len() && cpuset::item_covers(#[trigger] x[i], cpu);
        assert((x + y)[i] == x[i]);
    }
    if cpuset::items_cover(y, cpu) {
        let i = choose|i: int| 0 <= i < y.len() && cpuset::item_covers(#[trigger] y[i], cpu);
        assert((x + y)[x.len() + i] == y[i]);
    }
}

/// The items of two lists with a comma between them are those of each.
proof fn lemma_pieces_split(a: Seq<char>, b: Seq<char>)
    ensures
        text::pieces(a + seq![','] + b, ',') == text::pieces(a, ',') + text::pieces(b, ','),
    decreases a.len(),
{
    if a.contains(',') {
        a.index_of_first_ensures(',');
        let n = a.index_of_first(',').unwrap();
        let front = a.take(n);
        let rest = a.skip(n + 1);
        assert(!front.contains(',')) by {
            if front.contains(',') {
                let k = choose|k: int| 0 <= k < front.len() && front[k] == ',';
                assert(a[k] == ',');
            }
        }
        assert(a =~= front + seq![','] + rest);
        texts::law_pieces(front, ',', rest);
        texts::law_pieces(front, ',', rest + seq![','] + b);
        assert(a + seq![','] + b =~= front + seq![','] + (rest + seq![','] + b));
        lemma_pieces_split(rest, b);
        assert(seq![front] + (text::pieces(rest, ',') + text::pieces(b, ',')) =~= (seq![front]
            + text::pieces(rest, ',')) + text::pieces(b, ','));
    } else {
        texts::law_pieces(a, ',', b);
    }
}

/// An item without a dash, with white space round it or not, names the CPU of its number, and
/// none where it is no number.
pub proof fn law_single_cpu(front: Seq<char>, item: Seq<char>, back: Seq<char>, cpu: int)
    requires
        texts::blank(front),
        texts::blank(back),
        item.len() > 0,
        !text::white(item[0]),
        !text::white(item.last()),
        !item.contains(','),
        !item.contains('-'),
    ensures
        cpuset::list_covers(front + item + back, cpu) <==> numeral::unsigned_value(
            item,
            usize::MAX as int,
        ) == Some(cpu),
{
    let s = front + item + back;
    lemma_one_item(front, item, back);
    assert forall|j: int| 0 <= j < item.len() implies item[j] != '-' by {
        assert(item.contains(item[j]));
    }
    text::lemma_first_of_unique(item, '-', item.len() as int);
    lemma_covers_alone(s, cpu);
}

/// An item with a dash, with white space round it or not, names the CPUs from the number before
/// its first dash to the number after it. Where the first is no number it is 0, where the second
/// is none it is the first.
pub proof fn law_range_of_cpus(
    front: Seq<char>,
    from: Seq<char>,
    to: Seq<char>,
    back: Seq<char>,
    cpu: int,
)
    requires
        texts::blank(front),
        texts::blank(back),
        from.len() > 0 ==> !text::white(from[0]),
        to.len() > 0 ==> !text::white(to.last()),
        !from.contains(','),
        !to.contains(','),
        !from.contains('-'),
    ensures
        cpuset::list_covers(front + (from + seq!['-'] + to) + back, cpu) <==> {
            let low = match numeral::unsigned_value(from, usize::MAX as int) {
                Some(n) => n,
                None => 0,
            };
            match numeral::unsigned_value(to, usize::MAX as int) {
                Some(high) => low <= cpu <= high,
                None => cpu == low,
            }
        },
{
    let item = from + seq!['-'] + to;
    let n = from.len() as int;
    assert(item[0] == (if n > 0 {
        from[0]
    } else {
        '-'
    }));
    assert(item.last() == (if to.len() > 0 {
        to.last()
    } else {
        '-'
    }));
    assert(!item.contains(',')) by {
        if item.contains(',') {
            let k = choose|k: int| 0 <= k < item.len() && item[k] == ',';
            if k < n {
                assert(from.contains(from[k]));
            } else if k > n {
                assert(to.contains(to[k - n - 1]));
            }
        }
    }
    lemma_one_item(front, item, back);
    assert forall|j: int| 0 <= j < n implies item[j] != '-' by {
        assert(from.contains(from[j]));
    }
    text::lemma_first_of_unique(item, '-', n);
    assert(item.take(n) =~= from);
    assert(item.skip(n + 1) =~= to);
    lemma_covers_alone(front + item + back, cpu);
}

/// An item of nothing but white space, or of nothing at all, names no CPU.
pub proof fn law_blank_item(item: Seq<char>, cpu: int)
    requires
        texts::blank(item),
    ensures
        !cpuset::list_covers(item, cpu),
{
    texts::law_trimmed_blank(item);
    assert(!item.contains(',')) by {
        if item.contains(',') {
            let k = choose|k: int| 0 <= k < item.len() && item[k] == ',';
            assert(text::white(item[k]));
        }
    }
    texts::law_pieces(item, ',', Seq::empty());
    lemma_covers_alone(item, cpu);
    crate::laws::numbers::law_unsigned(Seq::empty(), usize::MAX as int);
    text::lemma_first_of_unique(Seq::empty(), '-', 0);
}

/// Text without a comma, with white space round it, is one item, and what it trims to.
proof fn lemma_one_item(front: Seq<char>, item: Seq<char>, back: Seq<char>)
    requires
        texts::blank(front),
        texts::blank(back),
        item.len() > 0,
        !text::white(item[0]),
        !text::white(item.last()),
        !item.contains(','),
    ensures
        text::trimmed(front + item + back) == item,
        text::pieces(front + item + back, ',') == seq![front + item + back],
{
    let s = front + item + back;
    texts::law_trimmed(front, item, back);
    assert(!s.contains(',')) by {
        if s.contains(',') {
            let k = choose|k: int| 0 <= k < s.len() && s[k] == ',';
            if k < front.len() {
                assert(text::white(front[k]));
            } else if k < front.len() + item.len() {
                assert(item.contains(item[k - front.len()]));
            } else {
                assert(text::white(back[k - front.len() - item.len()]));
            }
        }
    }
    texts::law_pieces(s, ',', Seq::empty());
}

/// A list of one item names what the item names.
proof fn lemma_covers_alone(s: Seq<char>, cpu: int)
    requires
        text::pieces(s, ',') == seq![s],
    ensures
        cpuset::list_covers(s, cpu) <==> cpuset::item_covers(s, cpu),
{
    if cpuset::item_covers(s, cpu) {
        assert(cpuset::item_covers(text::pieces(s, ',')[0], cpu));
    }
}

/// The mask of a list holds just the CPUs below 64 that the list names.
pub proof fn law_mask_of_list(list: Seq<char>, cpu: int)
    requires
        0 <= cpu < 64,
    ensures
        cpuset::bit(cpuset::list_mask(list), cpu) <==> cpuset::list_covers(list, cpu),
{
    let mask = lemma_some_mask(list, 64);
    assert(cpuset::mask_lists(mask, list));
    cpuset::lemma_list_mask(mask, list);
}

/// There is a mask of the CPUs below `n` that a list names.
proof fn lemma_some_mask(list: Seq<char>, n: nat) -> (mask: u64)
    requires
        n <= 64,
    ensures
        forall|c: int|
            0 <= c < 64 ==> (#[trigger] cpuset::bit(mask, c) <==> c < n && cpuset::list_covers(
                list,
                c,
            )),
    decreases n,
{
    if n == 0 {
        assert forall|c: int| 0 <= c < 64 implies !#[trigger] cpuset::bit(0u64, c) by {
            law_mask_bits(0, 0, 0, c as u64);
        }
        0u64
    } else {
        let m = lemma_some_mask(list, (n - 1) as nat);
        if cpuset::list_covers(list, n - 1) {
            let one = 1u64 << ((n - 1) as u64);
            assert forall|c: int| 0 <= c < 64 implies (#[trigger] cpuset::bit(m | one, c) <==> c
                < n && cpuset::list_covers(list, c)) by {
                law_mask_bits(m, one, (n - 1) as u64, c as u64);
                assert(cpuset::bit(m, c) <==> c < n - 1 && cpuset::list_covers(list, c));
            }
            m | one
        } else {
            m
        }
    }
}

/// The name of the cpuset for a list depends on the CPUs that the list names, and on nothing else
/// of it: it is how the set of them is written.
pub proof fn law_cpuset_name(list: Seq<char>, mask: u64)
    requires
        forall|c: int|
            0 <= c < 64 ==> (#[trigger] cpuset::bit(mask, c) <==> cpuset::list_covers(list, c)),
    ensures
        config::cpuset_name(list) == cpuset::range_list(mask, 0),
{
    cpuset::lemma_list_mask(mask, list);
}

/// Where the next CPU is that is in the mask, or not in it.
proof fn lemma_next_cpu(mask: u64, from: int, on: bool)
    requires
        0 <= from <= 64,
    ensures
        from <= cpuset::next_cpu(mask, from, on) <= 64,
        forall|c: int|
            from <= c < cpuset::next_cpu(mask, from, on) ==> #[trigger] cpuset::bit(mask, c) != on,
        cpuset::next_cpu(mask, from, on) < 64 ==> cpuset::bit(
            mask,
            cpuset::next_cpu(mask, from, on),
        ) == on,
    decreases 64 - from,
{
    if from < 64 && cpuset::bit(mask, from) != on {
        lemma_next_cpu(mask, from + 1, on);
    }
}

/// A position with the properties of the next CPU is the next CPU.
proof fn lemma_next_cpu_unique(mask: u64, from: int, on: bool, at: int)
    requires
        0 <= from <= at <= 64,
        forall|c: int| from <= c < at ==> #[trigger] cpuset::bit(mask, c) != on,
        at < 64 ==> cpuset::bit(mask, at) == on,
    ensures
        cpuset::next_cpu(mask, from, on) == at,
{
    lemma_next_cpu(mask, from, on);
    let k = cpuset::next_cpu(mask, from, on);
    if k < at {
        assert(cpuset::bit(mask, k) != on);
    }
    if at < k {
        assert(cpuset::bit(mask, at) != on);
    }
}

/// An empty set is written as nothing. CPUs that follow each other are written as one range, one
/// CPU by itself as its number.
pub proof fn law_one_range(mask: u64, first: int, last: int)
    requires
        0 <= first <= last < 64,
        forall|c: int| 0 <= c < 64 ==> (#[trigger] cpuset::bit(mask, c) <==> first <= c <= last),
    ensures
        first < last ==> cpuset::range_list(mask, 0) == numeral::decimal(first as nat) + seq!['-']
            + numeral::decimal(last as nat),
        first == last ==> cpuset::range_list(mask, 0) == numeral::decimal(first as nat),
        cpuset::range_list(0, 0) == Seq::<char>::empty(),
{
    lemma_next_cpu_unique(mask, 0, true, first);
    lemma_next_cpu_unique(mask, first, false, last + 1);
    lemma_next_cpu_unique(mask, last + 1, true, 64);
    assert forall|c: int| 0 <= c < 64 implies #[trigger] cpuset::bit(0u64, c) != true by {
        law_mask_bits(0, 0, 0, c as u64);
    }
    lemma_next_cpu_unique(0, 0, true, 64);
    assert(!(64 < cpuset::next_cpu(0, 64, false)));
}

/// The CPUs on either side of one that is missing are written with a comma between them, the
/// lower ones first.
pub proof fn law_ranges_ascend(mask: u64, low: u64, high: u64, gap: int, x: int, y: int)
    requires
        0 <= x < gap < y < 64,
        cpuset::bit(low, x),
        cpuset::bit(high, y),
        !cpuset::bit(mask, gap),
        forall|c: int|
            0 <= c < 64 ==> (#[trigger] cpuset::bit(low, c) <==> cpuset::bit(mask, c) && c < gap),
        forall|c: int|
            0 <= c < 64 ==> (#[trigger] cpuset::bit(high, c) <==> cpuset::bit(mask, c) && c > gap),
    ensures
        cpuset::range_list(mask, 0) == cpuset::range_list(low, 0) + seq![',']
            + cpuset::range_list(high, 0),
{
    lemma_ranges_ascend(mask, low, high, gap, 0, x, y);
}

/// The same from the CPU `from` on.
proof fn lemma_ranges_ascend(
    mask: u64,
    low: u64,
    high: u64,
    gap: int,
    from: int,
    x: int,
    y: int,
)
    requires
        0 <= from <= x < gap < y < 64,
        cpuset::bit(low, x),
        cpuset::bit(high, y),
        !cpuset::bit(mask, gap),
        forall|c: int|
            0 <= c < 64 ==> (#[trigger] cpuset::bit(low, c) <==> cpuset::bit(mask, c) && c < gap),
        forall|c: int|
            0 <= c < 64 ==> (#[trigger] cpuset::bit(high, c) <==> cpuset::bit(mask, c) && c > gap),
    ensures
        cpuset::range_list(mask, from) == cpuset::range_list(low, from) + seq![',']
            + cpuset::range_list(high, 0),
    decreases 64 - from,
{
    lemma_next_cpu(low, from, true);
    let first = cpuset::next_cpu(low, from, true);
    if x < first {
        assert(cpuset::bit(low, x) != true);
    }
    assert forall|c: int| from <= c < first implies #[trigger] cpuset::bit(mask, c) != true by {
        assert(cpuset::bit(low, c) != true);
    }
    assert(cpuset::bit(low, first));
    lemma_next_cpu_unique(mask, from, true, first);
    lemma_next_cpu(low, first, false);
    let end = cpuset::next_cpu(low, first, false);
    if gap < end {
        assert(cpuset::bit(low, gap) != false);
    }
    assert(first < end <= gap) by {
        if end == first {
            assert(cpuset::bit(low, end) == false);
        }
    }
    assert forall|c: int| first <= c < end implies #[trigger] cpuset::bit(mask, c) != false by {
        assert(cpuset::bit(low, c) != false);
    }
    assert(!cpuset::bit(low, end));
    lemma_next_cpu_unique(mask, first, false, end);
    lemma_next_cpu(mask, end, true);
    lemma_next_cpu(low, end, true);
    assert(cpuset::bit(mask, y));
    assert(cpuset::next_cpu(mask, end, true) <= y) by {
        if y < cpuset::next_cpu(mask, end, true) {
            assert(cpuset::bit(mask, y) != true);
        }
    }
    let next = cpuset::next_cpu(low, end, true);
    let item = cpuset::range_item(first, end);
    if next < 64 {
        assert(next < gap);
        lemma_ranges_ascend(mask, low, high, gap, end, next, y);
        assert(cpuset::range_list(mask, from) =~= cpuset::range_list(low, from) + seq![',']
            + cpuset::range_list(high, 0));
    } else {
        assert forall|c: int| end <= c < 64 implies #[trigger] cpuset::bit(mask, c)
            == cpuset::bit(high, c) by {
            if c < gap {
                assert(cpuset::bit(low, c) != true);
            }
        }
        lemma_range_list_same(mask, high, end);
        assert forall|c: int| 0 <= c < end implies !#[trigger] cpuset::bit(high, c) by {}
        lemma_range_list_skips(high, 0, end);
        assert(cpuset::range_list(mask, from) =~= item + seq![','] + cpuset::range_list(high, 0));
    }
}

/// Masks with the same CPUs from `from` on are written alike from there.
proof fn lemma_range_list_same(a: u64, b: u64, from: int)
    requires
        0 <= from <= 64,
        forall|c: int| from <= c < 64 ==> #[trigger] cpuset::bit(a, c) == cpuset::bit(b, c),
    ensures
        cpuset::range_list(a, from) == cpuset::range_list(b, from),
    decreases 64 - from,
{
    lemma_next_cpu(a, from, true);
    let first = cpuset::next_cpu(a, from, true);
    assert forall|c: int| from <= c < first implies #[trigger] cpuset::bit(b, c) != true by {
        assert(cpuset::bit(a, c) != true);
    }
    if first < 64 {
        assert(cpuset::bit(a, first) == cpuset::bit(b, first));
    }
    lemma_next_cpu_unique(b, from, true, first);
    lemma_next_cpu(a, first, false);
    let end = cpuset::next_cpu(a, first, false);
    assert forall|c: int| first <= c < end implies #[trigger] cpuset::bit(b, c) != false by {
        assert(cpuset::bit(a, c) != false);
    }
    if end < 64 {
        assert(cpuset::bit(a, end) == cpuset::bit(b, end));
    }
    lemma_next_cpu_unique(b, first, false, end);
    lemma_next_cpu(a, end, true);
    let next = cpuset::next_cpu(a, end, true);
    assert forall|c: int| end <= c < next implies #[trigger] cpuset::bit(b, c) != true by {
        assert(cpuset::bit(a, c) != true);
    }
    if next < 64 {
        assert(cpuset::bit(a, next) == cpuset::bit(b, next));
    }
    lemma_next_cpu_unique(b, end, true, next);
    if from <= first < end <= 64 && next < 64 {
        lemma_range_list_same(a, b, end);
    }
}

/// CPUs that are not there are passed over.
proof fn lemma_range_list_skips(mask: u64, from: int, to: int)
    requires
        0 <= from <= to <= 64,
        forall|c: int| from <= c < to ==> !#[trigger] cpuset::bit(mask, c),
    ensures
        cpuset::range_list(mask, from) == cpuset::range_list(mask, to),
{
    lemma_next_cpu(mask, to, true);
    let first = cpuset::next_cpu(mask, to, true);
    assert forall|c: int| from <= c < first implies #[trigger] cpuset::bit(mask, c) != true by {
        if c >= to {
            assert(cpuset::bit(mask, c) != true);
        }
    }
    lemma_next_cpu_unique(mask, from, true, first);
}

} // verus!
