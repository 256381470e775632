//! Text as sequences of characters: comparing, searching, trimming and
//! splitting.

use vstd::prelude::*;

verus! {

/// The characters with the Unicode property `White_Space`.
pub open spec fn white(c: char) -> bool {
    ||| '\u{9}' <= c <= '\u{d}'
    ||| c == '\u{20}'
    ||| c == '\u{85}'
    ||| c == '\u{a0}'
    ||| c == '\u{1680}'
    ||| '\u{2000}' <= c <= '\u{200a}'
    ||| c == '\u{2028}'
    ||| c == '\u{2029}'
    ||| c == '\u{202f}'
    ||| c == '\u{205f}'
    ||| c == '\u{3000}'
}

/// `needle` stands in `s` at position `at`.
pub open spec fn stands_at(s: Seq<char>, needle: Seq<char>, at: int) -> bool {
    0 <= at && at + needle.len() <= s.len() && s.subrange(at, at + needle.len()) == needle
}

/// `needle` stands somewhere in `s`.
pub open spec fn has_text(s: Seq<char>, needle: Seq<char>) -> bool {
    exists|at: int| #[trigger] stands_at(s, needle, at)
}

/// The position of the first `c` in `s`; the length of `s` where there is none.
pub open spec fn first_of(s: Seq<char>, c: char) -> int
    decreases s.len(),
{
    if s.len() == 0 || s[0] == c {
        0
    } else {
        1 + first_of(s.drop_first(), c)
    }
}

/// `s` without the white space that it begins with.
pub open spec fn trim_front(s: Seq<char>) -> Seq<char>
    decreases s.len(),
{
    if s.len() > 0 && white(s[0]) {
        trim_front(s.drop_first())
    } else {
        s
    }
}

/// `s` without the white space that it ends with.
pub open spec fn trim_back(s: Seq<char>) -> Seq<char>
    decreases s.len(),
{
    if s.len() > 0 && white(s.last()) {
        trim_back(s.drop_last())
    } else {
        s
    }
}

/// `s` without white space at either end.
pub open spec fn trimmed(s: Seq<char>) -> Seq<char> {
    trim_back(trim_front(s))
}

/// The pieces of `s` between the separators `c`: one more than there are separators.
pub open spec fn pieces(s: Seq<char>, c: char) -> Seq<Seq<char>>
    decreases s.len(),
{
    let at = first_of(s, c);
    if 0 <= at < s.len() {
        seq![s.take(at)] + pieces(s.skip(at + 1), c)
    } else {
        seq![s]
    }
}

/// What stands in `s` before its first `c`.
pub open spec fn head_piece(s: Seq<char>, c: char) -> Seq<char> {
    s.take(first_of(s, c))
}

/// The position of the first white space in `s`; the length of `s` where there is none.
pub open spec fn first_white(s: Seq<char>) -> int
    decreases s.len(),
{
    if s.len() == 0 || white(s[0]) {
        0
    } else {
        1 + first_white(s.drop_first())
    }
}

/// What `first_of` says of the positions: `at` holds `c` or is the end, and none before it does.
pub proof fn lemma_first_of(s: Seq<char>, c: char)
    ensures
        0 <= first_of(s, c) <= s.len(),
        forall|j: int| 0 <= j < first_of(s, c) ==> s[j] != c,
        first_of(s, c) < s.len() ==> s[first_of(s, c)] == c,
    decreases s.len(),
{
    if s.len() != 0 && s[0] != c {
        let t = s.drop_first();
        lemma_first_of(t, c);
        assert forall|j: int| 0 <= j < first_of(s, c) implies s[j] != c by {
            if j > 0 {
                assert(s[j] == t[j - 1]);
            }
        }
    }
}

/// A position with the properties of the first `c` is the first `c`.
pub proof fn lemma_first_of_unique(s: Seq<char>, c: char, at: int)
    requires
        0 <= at <= s.len(),
        forall|j: int| 0 <= j < at ==> s[j] != c,
        at < s.len() ==> s[at] == c,
    ensures
        first_of(s, c) == at,
{
    lemma_first_of(s, c);
    let f = first_of(s, c);
    if f < at {
        assert(s[f] != c);
    }
    if at < f {
        assert(s[at] != c);
    }
}

/// What `first_white` says of the positions.
pub proof fn lemma_first_white(s: Seq<char>)
    ensures
        0 <= first_white(s) <= s.len(),
        forall|j: int| 0 <= j < first_white(s) ==> !white(s[j]),
        first_white(s) < s.len() ==> white(s[first_white(s)]),
    decreases s.len(),
{
    if s.len() != 0 && !white(s[0]) {
        let t = s.drop_first();
        lemma_first_white(t);
        assert forall|j: int| 0 <= j < first_white(s) implies !white(s[j]) by {
            if j > 0 {
                assert(s[j] == t[j - 1]);
            }
        }
    }
}

/// The words of `s`: its longest stretches without white space.
pub open spec fn words(s: Seq<char>) -> Seq<Seq<char>>
    decreases s.len(),
{
    let t = trim_front(s);
    let at = first_white(t);
    if t.len() == 0 || !(0 < at <= t.len() <= s.len()) {
        seq![]
    } else {
        seq![t.take(at)] + words(t.skip(at))
    }
}

/// The texts that the strings `v` hold.
pub open spec fn views(v: Seq<String>) -> Seq<Seq<char>> {
    v.map_values(|s: String| s@)
}

/// The characters of `s`.
pub fn chars_of(s: &str) -> (r: Vec<char>)
    ensures
        r@ == s@,
{
    let mut r: Vec<char> = Vec::new();
    for c in it: s.chars()
        invariant
            r@ == it.seq().take(it.index() as int),
            it.seq() == s@,
    {
        assert(it.seq().take(it.index() + 1) =~= it.seq().take(it.index() as int).push(
            it.seq()[it.index() as int],
        ));
        r.push(c);
    }
    assert(s@.take(s@.len() as int) =~= s@);
    r
}

/// Whether two texts are equal.
pub fn same(a: &str, b: &str) -> (r: bool)
    ensures
        r == (a@ == b@),
{
    let x: Vec<char> = chars_of(a);
    let y: Vec<char> = chars_of(b);
    if x.len() != y.len() {
        return false;
    }
    let mut i: usize = 0;
    while i < x.len()
        invariant
            x@.len() == y@.len(),
            i <= x@.len(),
            forall|j: int| 0 <= j < i ==> x@[j] == y@[j],
            x@ == a@,
            y@ == b@,
        decreases x@.len() - i,
    {
        if x[i] != y[i] {
            return false;
        }
        i += 1;
    }
    assert(a@ =~= b@);
    true
}

/// Whether `c` is white space.
pub fn is_white(c: char) -> (r: bool)
    ensures
        r == white(c),
{
    ('\u{9}' <= c && c <= '\u{d}') || c == '\u{20}' || c == '\u{85}' || c == '\u{a0}' || c
        == '\u{1680}' || ('\u{2000}' <= c && c <= '\u{200a}') || c == '\u{2028}' || c == '\u{2029}'
        || c == '\u{202f}' || c == '\u{205f}' || c == '\u{3000}'
}

/// Whether `needle` stands in `s` at position `at`.
fn matches_at(s: &Vec<char>, needle: &Vec<char>, at: usize) -> (r: bool)
    requires
        at + needle@.len() <= s@.len(),
    ensures
        r == stands_at(s@, needle@, at as int),
{
    let size: usize = s.len();
    let mut i: usize = 0;
    while i < needle.len()
        invariant
            size == s@.len(),
            at + needle@.len() <= s@.len(),
            i <= needle@.len(),
            forall|j: int| 0 <= j < i ==> s@[at + j] == needle@[j],
        decreases needle@.len() - i,
    {
        if s[at + i] != needle[i] {
            assert(s@.subrange(at as int, at + needle@.len())[i as int] == s@[at + i]);
            return false;
        }
        i += 1;
    }
    assert(s@.subrange(at as int, at + needle@.len()) =~= needle@);
    true
}

/// Whether `s` begins with `front`.
pub fn starts_with(s: &str, front: &str) -> (r: bool)
    ensures
        r == front@.is_prefix_of(s@),
{
    let x: Vec<char> = chars_of(s);
    let y: Vec<char> = chars_of(front);
    if y.len() > x.len() {
        return false;
    }
    matches_at(&x, &y, 0)
}

/// Whether `s` ends with `back`.
pub fn ends_with(s: &str, back: &str) -> (r: bool)
    ensures
        r == back@.is_suffix_of(s@),
{
    let x: Vec<char> = chars_of(s);
    let y: Vec<char> = chars_of(back);
    if y.len() > x.len() {
        return false;
    }
    matches_at(&x, &y, x.len() - y.len())
}

/// Whether `needle` stands somewhere in `s`.
pub fn contains_text(s: &str, needle: &str) -> (r: bool)
    ensures
        r == has_text(s@, needle@),
{
    let x: Vec<char> = chars_of(s);
    let y: Vec<char> = chars_of(needle);
    if y.len() > x.len() {
        return false;
    }
    let last: usize = x.len() - y.len();
    let mut at: usize = 0;
    loop
        invariant
            x@ == s@,
            y@ == needle@,
            last + y@.len() == x@.len(),
            at <= last,
            forall|j: int| 0 <= j < at ==> !stands_at(s@, needle@, j),
        decreases last - at,
    {
        if matches_at(&x, &y, at) {
            return true;
        }
        if at == last {
            return false;
        }
        at += 1;
    }
}

/// Whether the character `c` stands in `s`.
pub fn contains_char(s: &str, c: char) -> (r: bool)
    ensures
        r == s@.contains(c),
{
    let x: Vec<char> = chars_of(s);
    let mut i: usize = 0;
    while i < x.len()
        invariant
            x@ == s@,
            i <= x@.len(),
            forall|j: int| 0 <= j < i ==> x@[j] != c,
        decreases x@.len() - i,
    {
        if x[i] == c {
            return true;
        }
        i += 1;
    }
    false
}

/// The position of the first `c` in `x` from `from` on; the length of `x` where there is none.
pub fn find_from(x: &Vec<char>, c: char, from: usize) -> (r: usize)
    requires
        from <= x@.len(),
    ensures
        from <= r <= x@.len(),
        r == from + first_of(x@.skip(from as int), c),
{
    let mut i: usize = from;
    while i < x.len()
        invariant
            from <= i <= x@.len(),
            forall|j: int| from <= j < i ==> x@[j] != c,
        decreases x@.len() - i,
    {
        if x[i] == c {
            proof {
                lemma_first_of_unique(x@.skip(from as int), c, i - from);
            }
            return i;
        }
        i += 1;
    }
    proof {
        lemma_first_of_unique(x@.skip(from as int), c, i - from);
    }
    i
}

/// The part of `s` between two character positions.
pub fn part(s: &str, from: usize, to: usize) -> (r: String)
    requires
        from <= to <= s@.len(),
    ensures
        r@ == s@.subrange(from as int, to as int),
{
    s.substring_char(from, to).to_owned()
}

/// What stands in `s` before its first `c`; all of `s` where there is none.
pub fn head(s: &str, c: char) -> (r: String)
    ensures
        r@ == head_piece(s@, c),
{
    let x: Vec<char> = chars_of(s);
    assert(x@.skip(0) =~= x@);
    let at: usize = find_from(&x, c, 0);
    part(s, 0, at)
}

/// `s` without white space at either end.
pub fn trim(s: &str) -> (r: String)
    ensures
        r@ == trimmed(s@),
{
    let x: Vec<char> = chars_of(s);
    let mut from: usize = 0;
    assert(x@.skip(0) =~= x@);
    while from < x.len() && is_white(x[from])
        invariant
            from <= x@.len(),
            trim_front(x@) == trim_front(x@.skip(from as int)),
        decreases x@.len() - from,
    {
        assert(x@.skip(from as int).drop_first() =~= x@.skip(from + 1));
        from += 1;
    }
    let mut to: usize = x.len();
    let ghost t = x@.skip(from as int);
    assert(t =~= x@.subrange(from as int, to as int));
    while to > from && is_white(x[to - 1])
        invariant
            from <= to <= x@.len(),
            trim_back(t) == trim_back(x@.subrange(from as int, to as int)),
        decreases to,
    {
        assert(x@.subrange(from as int, to as int).drop_last() =~= x@.subrange(
            from as int,
            to - 1,
        ));
        to -= 1;
    }
    part(s, from, to)
}

/// The pieces of `s` between the separators `c`.
pub fn split(s: &str, c: char) -> (r: Vec<String>)
    ensures
        views(r@) == pieces(s@, c),
{
    let x: Vec<char> = chars_of(s);
    let mut r: Vec<String> = Vec::new();
    let mut from: usize = 0;
    assert(x@.skip(0) =~= x@);
    let ghost all = pieces(x@, c);
    assert(views(r@) + all =~= all);
    loop
        invariant
            x@ == s@,
            from <= x@.len(),
            views(r@) + pieces(x@.skip(from as int), c) == pieces(s@, c),
        decreases x@.len() - from,
    {
        let ghost rest = x@.skip(from as int);
        let ghost before = r@;
        let at: usize = find_from(&x, c, from);
        let piece: String = part(s, from, at);
        assert(piece@ =~= rest.take(at - from));
        r.push(piece);
        assert(views(r@) =~= views(before).push(piece@));
        if at == x.len() {
            assert(rest.take(at - from) =~= rest);
            assert(pieces(rest, c) =~= seq![rest]);
            assert(views(r@) =~= views(before) + pieces(
                rest,
                c,
            ));
            return r;
        }
        assert(rest.skip(at - from + 1) =~= x@.skip(at + 1));
        assert(views(r@) + pieces(x@.skip(at + 1), c) =~= views(before) + pieces(rest, c));
        from = at + 1;
    }
}

/// The second word of `s`, where it has two.
pub fn second_word(s: &str) -> (r: Option<String>)
    ensures
        match r {
            Some(w) => words(s@).len() > 1 && w@ == words(s@)[1],
            None => words(s@).len() <= 1,
        },
{
    let x: Vec<char> = chars_of(s);
    let mut from: usize = 0;
    let mut nth: usize = 0;
    assert(x@.skip(0) =~= x@);
    loop
        invariant
            x@ == s@,
            from <= x@.len(),
            nth <= 1,
            words(s@).skip(nth as int) == words(x@.skip(from as int)),
            nth <= words(s@).len(),
        decreases 2 - nth,
    {
        let ghost rest = x@.skip(from as int);
        let ghost t = trim_front(rest);
        let mut start: usize = from;
        while start < x.len() && is_white(x[start])
            invariant
                from <= start <= x@.len(),
                trim_front(x@.skip(from as int)) == trim_front(x@.skip(start as int)),
            decreases x@.len() - start,
        {
            assert(x@.skip(start as int).drop_first() =~= x@.skip(start + 1));
            start += 1;
        }
        assert(t =~= x@.skip(start as int));
        let mut end: usize = start;
        while end < x.len() && !is_white(x[end])
            invariant
                start <= end <= x@.len(),
                forall|j: int| start <= j < end ==> !white(x@[j]),
            decreases x@.len() - end,
        {
            end += 1;
        }
        proof {
            lemma_first_white(t);
            let f = first_white(t);
            if f < end - start {
                assert(white(t[f]));
                assert(t[f] == x@[start + f]);
            }
            if f > end - start {
                assert(!white(t[end - start]));
            }
            assert(f == end - start);
        }
        if start == x.len() {
            assert(words(rest) =~= seq![]);
            assert(words(s@).len() == nth);
            return None;
        }
        assert(t[0] == x@[start as int]);
        assert(words(rest) =~= seq![t.take(end - start)] + words(t.skip(end - start)));
        assert(t.skip(end - start) =~= x@.skip(end as int));
        assert(words(s@).skip(nth as int)[0] == words(s@)[nth as int]);
        if nth == 1 {
            let w: String = part(s, start, end);
            assert(w@ =~= t.take(end - start));
            return Some(w);
        }
        assert(words(s@).skip(nth + 1) =~= words(s@).skip(nth as int).drop_first());
        assert(words(rest).drop_first() =~= words(t.skip(end - start)));
        from = end;
        nth += 1;
    }
}

/// What has no white space at its front keeps its first character when it is trimmed.
pub proof fn lemma_trim_keeps_front(s: Seq<char>)
    requires
        s.len() > 0,
        !white(s[0]),
    ensures
        trimmed(s).len() > 0,
        trimmed(s)[0] == s[0],
    decreases s.len(),
{
    assert(trim_front(s) == s);
    if white(s.last()) {
        lemma_trim_keeps_front(s.drop_last());
    }
}

/// `s` with a dot in place of each comma.
pub open spec fn dotted(s: Seq<char>) -> Seq<char> {
    s.map_values(|c: char| if c == ',' { '.' } else { c })
}

/// `s` with a dot in place of each comma.
pub fn dots_for_commas(s: &str) -> (r: String)
    ensures
        r@ == dotted(s@),
{
    let x: Vec<char> = chars_of(s);
    let mut r: String = String::new();
    let mut i: usize = 0;
    assert(r@ =~= dotted(s@.take(0)));
    proof {
        reveal_strlit(".");
    }
    while i < x.len()
        invariant
            x@ == s@,
            i <= x@.len(),
            "."@ == seq!['.'],
            r@ == dotted(s@.take(i as int)),
        decreases x@.len() - i,
    {
        let ghost had = r@;
        if x[i] == ',' {
            r.append(".");
        } else {
            r.append(s.substring_char(i, i + 1));
        }
        assert(r@ =~= dotted(s@.take(i + 1)));
        i += 1;
    }
    assert(s@.take(i as int) =~= s@);
    r
}

/// Whether `a` comes before `b` in dictionary order of the characters.
pub open spec fn text_before(a: Seq<char>, b: Seq<char>) -> bool
    decreases a.len(),
{
    if b.len() == 0 {
        false
    } else if a.len() == 0 {
        true
    } else if a[0] == b[0] {
        text_before(a.drop_first(), b.drop_first())
    } else {
        a[0] < b[0]
    }
}

/// Whether `a` comes before `b` in dictionary order.
pub fn comes_before(a: &str, b: &str) -> (r: bool)
    ensures
        r == text_before(a@, b@),
{
    let x: Vec<char> = chars_of(a);
    let y: Vec<char> = chars_of(b);
    let mut i: usize = 0;
    assert(x@.skip(0) =~= x@);
    assert(y@.skip(0) =~= y@);
    loop
        invariant
            x@ == a@,
            y@ == b@,
            i <= x@.len(),
            i <= y@.len(),
            text_before(a@, b@) == text_before(x@.skip(i as int), y@.skip(i as int)),
        decreases x@.len() - i,
    {
        if i == y.len() {
            return false;
        }
        if i == x.len() {
            return true;
        }
        if x[i] != y[i] {
            return x[i] < y[i];
        }
        assert(x@.skip(i as int).drop_first() =~= x@.skip(i + 1));
        assert(y@.skip(i as int).drop_first() =~= y@.skip(i + 1));
        i += 1;
    }
}

} // verus!
