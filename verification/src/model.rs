//! The mathematical model: what the frequency table of a text is.

use vstd::multiset::Multiset;
use vstd::prelude::*;

verus! {

/// The numeric value of a code point.
pub open spec fn code(c: char) -> u32 {
    c as u32
}

/// Number of slots in the direct-indexed part of the table: one per ASCII code point.
pub const ASCII_SLOTS: usize = 128;

/// One past the largest Unicode scalar value.
pub open spec fn code_space_end() -> int {
    0x110000
}

/// Whether `v` is the value of some `char` (a code point that is no surrogate).
pub open spec fn is_scalar_value(v: int) -> bool {
    0 <= v <= 0xD7FF || 0xE000 <= v <= 0x10FFFF
}

/// How many times the code point `c` occurs in `text`.
pub open spec fn occurrences(text: Seq<char>, c: char) -> nat {
    text.to_multiset().count(c)
}

/// The code points of `m` whose value lies in `[lo, hi)`, each with its
/// multiplicity, in ascending order of value. Code points that do not occur
/// have no entry.
pub open spec fn entries_between(m: Multiset<char>, lo: int, hi: int) -> Seq<(char, nat)>
    decreases hi - lo,
{
    if hi <= lo {
        Seq::empty()
    } else {
        let below = entries_between(m, lo, hi - 1);
        if is_scalar_value(hi - 1) && m.count((hi - 1) as char) > 0 {
            below.push(((hi - 1) as char, m.count((hi - 1) as char)))
        } else {
            below
        }
    }
}

/// The frequency table of `text`: one entry per distinct code point, holding
/// the code point and its number of occurrences. The non-ASCII code points come
/// first, in ascending order, and the ASCII code points follow, in ascending
/// order. This is the order in which the entropy sum is accumulated.
pub open spec fn frequencies(text: Seq<char>) -> Seq<(char, nat)> {
    wide_part(text) + ascii_part(text)
}

/// The entries of the non-ASCII code points of `text`, in ascending order.
pub open spec fn wide_part(text: Seq<char>) -> Seq<(char, nat)> {
    entries_between(text.to_multiset(), ASCII_SLOTS as int, code_space_end())
}

/// The entries of the ASCII code points of `text`, in ascending order.
pub open spec fn ascii_part(text: Seq<char>) -> Seq<(char, nat)> {
    entries_between(text.to_multiset(), 0, ASCII_SLOTS as int)
}

/// The text that consists of the code point `c`, `n` times.
pub open spec fn repeated(c: char, n: nat) -> Seq<char> {
    Seq::new(n, |i: int| c)
}

/// `items` lists code points in strictly ascending order of value.
pub open spec fn ascending(items: Seq<(char, nat)>) -> bool {
    forall|i: int, j: int| 0 <= i < j < items.len() ==> code(items[i].0) < code(items[j].0)
}

/// Every entry of `items` is a code point of `[lo, hi)` that occurs in `m`,
/// together with its multiplicity.
pub open spec fn counts_within(items: Seq<(char, nat)>, m: Multiset<char>, lo: int, hi: int) -> bool {
    forall|i: int|
        0 <= i < items.len() ==> {
            &&& lo <= code(#[trigger] items[i].0) < hi
            &&& items[i].1 == m.count(items[i].0)
            &&& items[i].1 > 0
        }
}

/// Every code point of `[lo, hi)` that occurs in `m` has an entry in `items`.
pub open spec fn covers(items: Seq<(char, nat)>, m: Multiset<char>, lo: int, hi: int) -> bool {
    forall|c: char|
        lo <= code(c) < hi && #[trigger] m.count(c) > 0 ==> exists|i: int|
            0 <= i < items.len() && #[trigger] items[i].0 == c
}

/// The value of a code point is a scalar value, and names that code point.
pub proof fn lemma_code_round_trip(c: char)
    ensures
        is_scalar_value(code(c) as int),
        (code(c) as int) as char == c,
{
}

/// The entries for one range are determined by three properties: they are in
/// ascending order, each is an occurring code point of the range with its
/// multiplicity, and no occurring code point of the range is missing.
pub proof fn lemma_entries_unique(items: Seq<(char, nat)>, m: Multiset<char>, lo: int, hi: int)
    requires
        ascending(items),
        counts_within(items, m, lo, hi),
        covers(items, m, lo, hi),
    ensures
        items == entries_between(m, lo, hi),
    decreases hi - lo,
{
    if hi <= lo {
        if items.len() > 0 {
            assert(lo <= code(items[0].0) < hi);
        }
        assert(items =~= Seq::empty());
    } else {
        let top = hi - 1;
        let c = top as char;
        if is_scalar_value(top) && m.count(c) > 0 {
            assert(code(c) == top);
            let k = choose|i: int| 0 <= i < items.len() && #[trigger] items[i].0 == c;
            let last = items.len() - 1;
            if k < last {
                assert(code(items[k].0) < code(items[last].0));
                assert(code(items[last].0) < hi);
            }
            assert(k == last);
            let front = items.drop_last();
            assert forall|d: char| top > code(d) >= lo && #[trigger] m.count(d) > 0 implies exists|
                i: int,
            |
                0 <= i < front.len() && #[trigger] front[i].0 == d by {
                let i = choose|i: int| 0 <= i < items.len() && #[trigger] items[i].0 == d;
                assert(i != last);
                assert(front[i].0 == d);
            }
            assert forall|i: int| 0 <= i < front.len() implies {
                &&& lo <= code(#[trigger] front[i].0) < top
                &&& front[i].1 == m.count(front[i].0)
                &&& front[i].1 > 0
            } by {
                assert(front[i] == items[i]);
                assert(code(items[i].0) < code(items[last].0));
            }
            lemma_entries_unique(front, m, lo, top);
            assert(items =~= front.push(items[last]));
        } else {
            assert forall|i: int| 0 <= i < items.len() implies {
                &&& lo <= code(#[trigger] items[i].0) < top
                &&& items[i].1 == m.count(items[i].0)
                &&& items[i].1 > 0
            } by {
                let d = items[i].0;
                if code(d) == top {
                    lemma_code_round_trip(d);
                    assert(d == c);
                }
            }
            lemma_entries_unique(items, m, lo, top);
        }
    }
}

/// The entries for a range have the three properties that determine them.
pub proof fn lemma_entries_between_sound(m: Multiset<char>, lo: int, hi: int)
    ensures
        ascending(entries_between(m, lo, hi)),
        counts_within(entries_between(m, lo, hi), m, lo, hi),
        covers(entries_between(m, lo, hi), m, lo, hi),
    decreases hi - lo,
{
    let items = entries_between(m, lo, hi);
    if hi > lo {
        let top = hi - 1;
        let c = top as char;
        let below = entries_between(m, lo, top);
        lemma_entries_between_sound(m, lo, top);
        assert forall|d: char| lo <= code(d) < hi && #[trigger] m.count(d) > 0 implies exists|
            i: int,
        |
            0 <= i < items.len() && #[trigger] items[i].0 == d by {
            if code(d) == top {
                lemma_code_round_trip(d);
                assert(d == c);
                assert(items[items.len() - 1].0 == d);
            } else {
                let i = choose|i: int| 0 <= i < below.len() && #[trigger] below[i].0 == d;
                assert(items[i].0 == d);
            }
        }
        if is_scalar_value(top) && m.count(c) > 0 {
            assert(code(c) == top);
            assert forall|i: int, j: int| 0 <= i < j < items.len() implies code(items[i].0) < code(
                items[j].0,
            ) by {
                if j < below.len() {
                    assert(items[i] == below[i] && items[j] == below[j]);
                } else {
                    assert(items[i] == below[i]);
                    assert(code(below[i].0) < top);
                }
            }
            assert forall|i: int| 0 <= i < items.len() implies {
                &&& lo <= code(#[trigger] items[i].0) < hi
                &&& items[i].1 == m.count(items[i].0)
                &&& items[i].1 > 0
            } by {
                if i < below.len() {
                    assert(items[i] == below[i]);
                }
            }
        }
    }
}

/// No code point occurs more often than the text is long.
pub proof fn lemma_occurrences_bounded(seen: Seq<char>, c: char)
    ensures
        occurrences(seen, c) <= seen.len(),
    decreases seen.len(),
{
    broadcast use vstd::multiset::group_multiset_axioms;

    if seen.len() == 0 {
        seen.to_multiset_ensures();
        assert(seen.to_multiset() =~= vstd::multiset::Multiset::empty());
    } else {
        let front = seen.drop_last();
        lemma_occurrences_bounded(front, c);
        front.to_multiset_ensures();
        assert(seen =~= front.push(seen.last()));
    }
}

/// Appending one code point raises its own count by one and leaves the others.
pub proof fn lemma_occurrences_push(seen: Seq<char>, ch: char)
    ensures
        forall|c: char| #[trigger]
            occurrences(seen.push(ch), c) == occurrences(seen, c) + if c == ch {
                1nat
            } else {
                0nat
            },
{
    broadcast use vstd::multiset::group_multiset_axioms;

    seen.to_multiset_ensures();
}

} // verus!
