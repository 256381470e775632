//! Sets of CPUs, and the lists such as `0-3,7` in which they are written.

use vstd::prelude::*;

use crate::numeral;
use crate::text;

verus! {

/// The bit of CPU `cpu` in `mask`.
pub open spec fn bit(mask: u64, cpu: int) -> bool {
    0 <= cpu < 64 && (mask >> (cpu as u64)) & 1 == 1
}

/// A set of CPUs with numbers below 64.
#[derive(Clone, Copy, Debug, PartialEq, Eq, Structural)]
pub struct CpuSet {
    /// The bit with the number of a CPU says whether the set holds it.
    pub mask: u64,
}

/// What is known of the machine's cpuset file system.
#[derive(Clone, Debug)]
pub struct CpuTopology {
    /// Whether threads can be put into cpusets.
    pub cpuset_enabled: bool,
    /// The memory nodes that a new cpuset gets.
    pub mems_str: String,
}

/// The number that `s` stands for, where it is one that `usize` holds.
pub open spec fn cpu_number(s: Seq<char>) -> Option<int> {
    numeral::unsigned_value(s, usize::MAX as int)
}

/// Whether the item `item` of a list names `cpu`: by its number, or in a range. A range whose
/// first number cannot be read starts at 0, one whose last number cannot be read holds only
/// its first.
pub open spec fn item_covers(item: Seq<char>, cpu: int) -> bool {
    let p = text::trimmed(item);
    let dash = text::first_of(p, '-');
    if dash < p.len() {
        let first = match cpu_number(p.take(dash)) {
            Some(n) => n,
            None => 0,
        };
        let last = match cpu_number(p.skip(dash + 1)) {
            Some(n) => n,
            None => first,
        };
        first <= cpu <= last
    } else {
        cpu_number(p) == Some(cpu)
    }
}

/// Whether one of the items `items` names `cpu`.
pub open spec fn items_cover(items: Seq<Seq<char>>, cpu: int) -> bool {
    exists|i: int| 0 <= i < items.len() && item_covers(#[trigger] items[i], cpu)
}

/// Whether the list `list`, whose items stand between commas, names `cpu`.
pub open spec fn list_covers(list: Seq<char>, cpu: int) -> bool {
    items_cover(text::pieces(list, ','), cpu)
}

/// The mask `mask` holds the CPUs below 64 that the list `list` names.
pub open spec fn mask_lists(mask: u64, list: Seq<char>) -> bool {
    forall|c: int| 0 <= c < 64 ==> (#[trigger] bit(mask, c) <==> list_covers(list, c))
}

/// The mask of the CPUs below 64 that the list `list` names.
pub open spec fn list_mask(list: Seq<char>) -> u64 {
    choose|mask: u64| mask_lists(mask, list)
}

/// The first CPU from `from` on whose bit is `on`; 64 where there is none.
pub open spec fn next_cpu(mask: u64, from: int, on: bool) -> int
    decreases 64 - from,
{
    if from >= 64 || from < 0 {
        64
    } else if bit(mask, from) == on {
        from
    } else {
        next_cpu(mask, from + 1, on)
    }
}

/// The CPUs from `first` up to but without `end`, as one item of a list.
pub open spec fn range_item(first: int, end: int) -> Seq<char> {
    if end == first + 1 {
        numeral::decimal(first as nat)
    } else {
        numeral::decimal(first as nat) + seq!['-'] + numeral::decimal((end - 1) as nat)
    }
}

/// The CPUs of `mask` from `from` on, as a list of ranges in ascending order.
pub open spec fn range_list(mask: u64, from: int) -> Seq<char>
    decreases 64 - from,
{
    let first = next_cpu(mask, from, true);
    let end = next_cpu(mask, first, false);
    if !(from <= first < end <= 64) {
        Seq::empty()
    } else if next_cpu(mask, end, true) >= 64 {
        range_item(first, end)
    } else {
        range_item(first, end) + seq![','] + range_list(mask, end)
    }
}

impl CpuSet {
    /// Whether the set holds `cpu`.
    pub open spec fn has(self, cpu: int) -> bool {
        bit(self.mask, cpu)
    }
}

/// Setting one bit leaves the others.
proof fn lemma_set_bit(mask: u64, cpu: u64, r: u64)
    requires
        cpu < 64,
        r == mask | (1u64 << cpu),
    ensures
        forall|c: int| #[trigger] bit(r, c) <==> (c == cpu || bit(mask, c)),
{
    assert forall|c: int| #[trigger] bit(r, c) <==> (c == cpu || bit(mask, c)) by {
        if 0 <= c < 64 {
            let k = c as u64;
            assert((r >> k) & 1 == 1 <==> (k == cpu || (mask >> k) & 1 == 1)) by (bit_vector)
                requires
                    cpu < 64,
                    k < 64,
                    r == mask | (1u64 << cpu),
            ;
        }
    }
}

/// The empty mask has no bits.
proof fn lemma_no_bits()
    ensures
        forall|c: int| !bit(0, c),
{
    assert forall|c: int| !bit(0, c) by {
        if 0 <= c < 64 {
            let k = c as u64;
            assert((0u64 >> k) & 1 == 0) by (bit_vector)
                requires
                    k < 64,
            ;
        }
    }
}

/// Two masks with the same bits are equal.
pub proof fn lemma_same_bits(a: u64, b: u64)
    requires
        forall|c: int| 0 <= c < 64 ==> bit(a, c) == bit(b, c),
    ensures
        a == b,
{
    if a != b {
        let d = a ^ b;
        assert(d != 0) by (bit_vector)
            requires
                a != b,
                d == a ^ b,
        ;
        lemma_some_bit(d, 64);
        let c = choose|c: int| 0 <= c < 64 && bit(d, c);
        let k = c as u64;
        assert((a >> k) & 1 != (b >> k) & 1) by (bit_vector)
            requires
                k < 64,
                d == a ^ b,
                (d >> k) & 1 == 1,
        ;
        assert((a >> k) & 1 == 1 || (a >> k) & 1 == 0) by (bit_vector);
        assert((b >> k) & 1 == 1 || (b >> k) & 1 == 0) by (bit_vector);
        assert(bit(a, c) == bit(b, c));
    }
}

/// A mask other than 0, with nothing from bit `n` on, has a bit below `n`.
proof fn lemma_some_bit(d: u64, n: int)
    requires
        d != 0,
        0 <= n <= 64,
        n < 64 ==> d >> (n as u64) == 0,
    ensures
        exists|c: int| 0 <= c < n && bit(d, c),
    decreases n,
{
    if n == 0 {
        assert(d >> 0u64 == d) by (bit_vector);
    } else {
        let k = (n - 1) as u64;
        if bit(d, n - 1) {
        } else {
            assert(d >> k == 0) by (bit_vector)
                requires
                    k < 64,
                    (d >> k) & 1 != 1,
                    k < 63 ==> d >> ((k + 1) as u64) == 0,
            ;
            lemma_some_bit(d, n - 1);
            let c = choose|c: int| 0 <= c < n - 1 && bit(d, c);
            assert(0 <= c < n && bit(d, c));
        }
    }
}

/// Only one mask holds the CPUs that a list names.
pub proof fn lemma_list_mask(mask: u64, list: Seq<char>)
    requires
        mask_lists(mask, list),
    ensures
        mask == list_mask(list),
{
    let other = list_mask(list);
    assert(mask_lists(other, list));
    assert forall|c: int| 0 <= c < 64 implies bit(mask, c) == bit(other, c) by {
        assert(bit(mask, c) <==> list_covers(list, c));
    }
    lemma_same_bits(mask, other);
}

/// `mask` together with the CPUs from `first` to `last`.
fn with_range(mask: u64, first: u64, last: u64) -> (r: u64)
    ensures
        forall|c: int| 0 <= c < 64 ==> (bit(r, c) <==> (bit(mask, c) || first <= c <= last)),
{
    let end: u64 = if last < 63 {
        last + 1
    } else {
        64
    };
    let mut r: u64 = mask;
    let mut cpu: u64 = first;
    while cpu < end
        invariant
            first <= cpu,
            cpu <= end || cpu == first,
            end <= 64,
            forall|c: int| 0 <= c < 64 ==> (bit(r, c) <==> (bit(mask, c) || first <= c < cpu)),
        decreases end - cpu,
    {
        let next: u64 = r | (1u64 << cpu);
        proof {
            lemma_set_bit(r, cpu, next);
        }
        r = next;
        cpu += 1;
    }
    r
}

/// `mask` together with the CPUs that the item `item` of a list names.
fn with_item(mask: u64, item: &str) -> (r: u64)
    ensures
        forall|c: int| 0 <= c < 64 ==> (bit(r, c) <==> (bit(mask, c) || item_covers(item@, c))),
{
    let p: String = text::trim(item);
    let x: Vec<char> = text::chars_of(p.as_str());
    assert(x@.skip(0) =~= x@);
    let dash: usize = text::find_from(&x, '-', 0);
    if dash < x.len() {
        let front: String = text::part(p.as_str(), 0, dash);
        let back: String = text::part(p.as_str(), dash + 1, x.len());
        assert(front@ =~= p@.take(dash as int));
        assert(back@ =~= p@.skip(dash + 1));
        let first: u64 = match numeral::parse_unsigned(front.as_str(), usize::MAX as u64) {
            Some(n) => n,
            None => 0,
        };
        let last: u64 = match numeral::parse_unsigned(back.as_str(), usize::MAX as u64) {
            Some(n) => n,
            None => first,
        };
        with_range(mask, first, last)
    } else {
        match numeral::parse_unsigned(p.as_str(), usize::MAX as u64) {
            Some(n) => {
                with_range(mask, n, n)
            },
            None => mask,
        }
    }
}

/// The CPUs that the list `list` names, as a mask.
pub fn cpu_mask(list: &str) -> (r: u64)
    ensures
        mask_lists(r, list@),
        r == list_mask(list@),
{
    let items: Vec<String> = text::split(list, ',');
    let ghost all = text::pieces(list@, ',');
    assert(items@.len() == text::views(items@).len());
    let mut mask: u64 = 0;
    let mut i: usize = 0;
    proof {
        lemma_no_bits();
    }
    while i < items.len()
        invariant
            i <= items@.len(),
            all == text::views(items@),
            forall|c: int|
                0 <= c < 64 ==> (bit(mask, c) <==> items_cover(all.take(i as int), c)),
        decreases items@.len() - i,
    {
        let ghost before = mask;
        mask = with_item(mask, items[i].as_str());
        assert(all[i as int] == items@[i as int]@);
        assert forall|c: int| 0 <= c < 64 implies (bit(mask, c) <==> items_cover(
            all.take(i + 1),
            c,
        )) by {
            let now = all.take(i + 1);
            let prev = all.take(i as int);
            if items_cover(prev, c) {
                let k = choose|k: int| 0 <= k < prev.len() && item_covers(#[trigger] prev[k], c);
                assert(item_covers(now[k], c));
            }
            if item_covers(all[i as int], c) {
                assert(item_covers(now[i as int], c));
            }
            if items_cover(now, c) {
                let k = choose|k: int| 0 <= k < now.len() && item_covers(#[trigger] now[k], c);
                if k < i {
                    assert(item_covers(prev[k], c));
                }
            }
        }
        i += 1;
    }
    assert(all.take(i as int) =~= all);
    proof {
        lemma_list_mask(mask, list@);
    }
    mask
}

/// The first CPU from `from` on whose bit is `on`, or 64, by its properties.
proof fn lemma_next_cpu(mask: u64, from: int, on: bool)
    requires
        0 <= from <= 64,
    ensures
        from <= next_cpu(mask, from, on) <= 64,
        forall|c: int| from <= c < next_cpu(mask, from, on) ==> bit(mask, c) != on,
        next_cpu(mask, from, on) < 64 ==> bit(mask, next_cpu(mask, from, on)) == on,
    decreases 64 - from,
{
    if from < 64 && bit(mask, from) != on {
        lemma_next_cpu(mask, from + 1, on);
    }
}

/// The first CPU from `from` on whose bit is `on`; 64 where there is none.
fn find_cpu(mask: u64, from: u64, on: bool) -> (r: u64)
    requires
        from <= 64,
    ensures
        r == next_cpu(mask, from as int, on),
        from <= r <= 64,
{
    let mut cpu: u64 = from;
    while cpu < 64 && ((mask >> cpu) & 1 == 1) != on
        invariant
            from <= cpu <= 64,
            next_cpu(mask, from as int, on) == next_cpu(mask, cpu as int, on),
        decreases 64 - cpu,
    {
        cpu += 1;
    }
    cpu
}

/// The CPUs from `first` up to but without `end`, as one item of a list.
fn item_text(first: u64, end: u64) -> (r: String)
    requires
        first < end,
    ensures
        r@ == range_item(first as int, end as int),
{
    let mut r: String = numeral::decimal_text(first);
    if end - first > 1 {
        proof {
            reveal_strlit("-");
        }
        r.append("-");
        r.append(numeral::decimal_text(end - 1).as_str());
        assert("-"@ =~= seq!['-']);
    }
    r
}

/// The CPUs of `mask` from `from` on, as a list of ranges.
fn list_text(mask: u64, from: u64) -> (r: String)
    requires
        from <= 64,
    ensures
        r@ == range_list(mask, from as int),
    decreases 64 - from,
{
    let first: u64 = find_cpu(mask, from, true);
    let end: u64 = find_cpu(mask, first, false);
    proof {
        lemma_next_cpu(mask, from as int, true);
        lemma_next_cpu(mask, first as int, false);
    }
    if first == 64 {
        return String::new();
    }
    let mut r: String = item_text(first, end);
    if find_cpu(mask, end, true) < 64 {
        proof {
            reveal_strlit(",");
        }
        r.append(",");
        r.append(list_text(mask, end).as_str());
        assert(","@ =~= seq![',']);
    }
    r
}

impl CpuSet {
    /// The empty set.
    pub fn new() -> (r: CpuSet)
        ensures
            forall|c: int| !r.has(c),
            r.mask == 0,
    {
        proof {
            lemma_no_bits();
        }
        CpuSet { mask: 0 }
    }

    /// The set of the CPUs that a list such as `0-3,7` names. What cannot be read in it names
    /// nothing.
    pub fn from_range(list: &str) -> (r: CpuSet)
        ensures
            forall|c: int| 0 <= c < 64 ==> (#[trigger] r.has(c) <==> list_covers(list@, c)),
            r.mask == list_mask(list@),
    {
        CpuSet { mask: cpu_mask(list) }
    }

    /// Whether the set is empty.
    pub fn is_zero(&self) -> (r: bool)
        ensures
            r == (self.mask == 0),
            r <==> (forall|c: int| !self.has(c)),
    {
        proof {
            lemma_no_bits();
            if forall|c: int| !self.has(c) {
                assert forall|c: int| 0 <= c < 64 implies bit(self.mask, c) == bit(0, c) by {
                    assert(!self.has(c));
                }
                lemma_same_bits(self.mask, 0);
            }
        }
        self.mask == 0
    }

    /// The set as a list of ranges in ascending order, such as `0-3,7`.
    pub fn to_range_string(&self) -> (r: String)
        ensures
            r@ == range_list(self.mask, 0),
    {
        list_text(self.mask, 0)
    }
}

/// Digits hold no white space, no comma and no dash.
proof fn lemma_digits_plain(s: Seq<char>)
    requires
        numeral::digits(s),
    ensures
        forall|i: int| 0 <= i < s.len() ==> !text::white(#[trigger] s[i]) && s[i] != ','
            && s[i] != '-' && s[i] != '+',
{
    assert forall|i: int| 0 <= i < s.len() implies !text::white(#[trigger] s[i]) && s[i]
        != ',' && s[i] != '-' && s[i] != '+' by {
        assert(numeral::digit(s[i]));
    }
}

/// An item of a list that was written for a range holds neither white space nor a comma, and
/// names that range.
proof fn lemma_range_item(first: int, end: int)
    requires
        0 <= first < end <= 64,
    ensures
        range_item(first, end).len() > 0,
        forall|i: int|
            0 <= i < range_item(first, end).len() ==> !text::white(
                #[trigger] range_item(first, end)[i],
            ) && range_item(first, end)[i] != ',',
        forall|c: int| item_covers(range_item(first, end), c) <==> first <= c < end,
{
    let a = numeral::decimal(first as nat);
    let b = numeral::decimal((end - 1) as nat);
    let item = range_item(first, end);
    numeral::lemma_decimal(first as nat);
    numeral::lemma_decimal((end - 1) as nat);
    lemma_digits_plain(a);
    lemma_digits_plain(b);
    numeral::law_decimal_reads_back(first as nat, usize::MAX as int);
    numeral::law_decimal_reads_back((end - 1) as nat, usize::MAX as int);
    assert forall|i: int| 0 <= i < item.len() implies !text::white(#[trigger] item[i])
        && item[i] != ',' by {
        if i < a.len() {
            assert(item[i] == a[i]);
        } else if i > a.len() {
            assert(item[i] == b[i - a.len() - 1]);
        }
    }
    assert(text::trim_front(item) == item);
    assert(!text::white(item[item.len() - 1]));
    assert(text::trimmed(item) == item);
    if end == first + 1 {
        text::lemma_first_of_unique(item, '-', item.len() as int);
    } else {
        assert forall|j: int| 0 <= j < a.len() implies item[j] != '-' by {
            assert(item[j] == a[j]);
        }
        text::lemma_first_of_unique(item, '-', a.len() as int);
        assert(item.take(a.len() as int) =~= a);
        assert(item.skip((a.len() + 1) as int) =~= b);
    }
}

/// The list of the CPUs from `from` on names these and no others.
proof fn lemma_range_list(mask: u64, from: int)
    requires
        0 <= from <= 64,
    ensures
        forall|c: int| #[trigger]
            list_covers(range_list(mask, from), c) <==> from <= c && bit(mask, c),
    decreases 64 - from,
{
    let first = next_cpu(mask, from, true);
    let end = next_cpu(mask, first, false);
    let list = range_list(mask, from);
    let items = text::pieces(list, ',');
    lemma_next_cpu(mask, from, true);
    lemma_next_cpu(mask, first, false);
    if first >= 64 {
        assert(items =~= seq![list]);
        assert forall|c: int| !item_covers(list, c) by {
            assert(text::trimmed(list) == list);
        }
    } else {
        let item = range_item(first, end);
        lemma_range_item(first, end);
        lemma_next_cpu(mask, end, true);
        let next = next_cpu(mask, end, true);
        if next >= 64 {
            text::lemma_first_of_unique(list, ',', list.len() as int);
            assert(items =~= seq![list]);
            assert forall|c: int| list_covers(list, c) <==> from <= c && bit(mask, c) by {
                if item_covers(list, c) {
                    assert(item_covers(items[0], c));
                }
            }
        } else {
            let rest = range_list(mask, end);
            lemma_range_list(mask, end);
            assert forall|j: int| 0 <= j < item.len() implies list[j] != ',' by {
                assert(list[j] == item[j]);
            }
            text::lemma_first_of_unique(list, ',', item.len() as int);
            assert(list.take(item.len() as int) =~= item);
            assert(list.skip((item.len() + 1) as int) =~= rest);
            let more = text::pieces(rest, ',');
            assert(items =~= seq![item] + more);
            assert forall|c: int| list_covers(list, c) <==> from <= c && bit(mask, c) by {
                if list_covers(list, c) {
                    let k = choose|k: int|
                        0 <= k < items.len() && item_covers(#[trigger] items[k], c);
                    if k > 0 {
                        assert(items[k] == more[k - 1]);
                        assert(item_covers(more[k - 1], c));
                        assert(list_covers(rest, c));
                    } else {
                        assert(items[0] == item);
                        assert(bit(mask, c) != false);
                    }
                }
                if from <= c && bit(mask, c) {
                    assert(c >= first);
                    if c < end {
                        assert(items[0] == item);
                        assert(item_covers(items[0], c));
                    } else {
                        assert(list_covers(rest, c));
                        let k = choose|k: int|
                            0 <= k < more.len() && item_covers(#[trigger] more[k], c);
                        assert(items[k + 1] == more[k]);
                        assert(item_covers(items[k + 1], c));
                    }
                }
            }
        }
    }
}

/// Reading the list that was written for a set of CPUs gives back the set: the list names its
/// CPUs and no others.
pub proof fn law_range_string_reads_back(set: CpuSet)
    ensures
        forall|c: int| #[trigger] list_covers(range_list(set.mask, 0), c) <==> set.has(c),
{
    lemma_range_list(set.mask, 0);
}

/// A set that is read from the list that was written for it is the same set.
pub proof fn law_from_range_inverts(set: CpuSet)
    ensures
        list_mask(range_list(set.mask, 0)) == set.mask,
{
    lemma_range_list(set.mask, 0);
    lemma_list_mask(set.mask, range_list(set.mask, 0));
}

} // verus!
