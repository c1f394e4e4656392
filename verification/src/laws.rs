//! Laws of the frequency table.
//!
//! The entropy of a text is a function of its frequency table and its length
//! alone. Each law below is a statement about those two, from which the
//! matching statement about the entropy follows.

use crate::model::{
    ascending, ascii_part, code, code_space_end, counts_within, entries_between,
    frequencies, lemma_code_round_trip, lemma_entries_between_sound, lemma_entries_unique,
    lemma_occurrences_bounded, lemma_occurrences_push, occurrences, repeated, wide_part,
    ASCII_SLOTS,
};
use vstd::multiset::Multiset;
use vstd::prelude::*;

verus! {

/// Order independence: two texts with the same code points, each the same
/// number of times, have the same length and the same frequency table,
/// whatever the order of the code points.
pub proof fn lemma_order_independent(a: Seq<char>, b: Seq<char>)
    requires
        a.to_multiset() == b.to_multiset(),
    ensures
        a.len() == b.len(),
        frequencies(a) == frequencies(b),
{
    a.to_multiset_ensures();
    b.to_multiset_ensures();
}

/// The table `t` with every count multiplied by `factor`.
pub open spec fn scaled(t: Seq<(char, nat)>, factor: nat) -> Seq<(char, nat)> {
    Seq::new(t.len(), |i: int| (t[i].0, factor * t[i].1))
}

/// Doubling every multiplicity doubles every count of a range and changes
/// neither the code points listed nor their order.
proof fn lemma_doubled_entries(m: Multiset<char>, lo: int, hi: int)
    ensures
        entries_between(m.add(m), lo, hi) == scaled(entries_between(m, lo, hi), 2),
    decreases hi - lo,
{
    broadcast use vstd::multiset::group_multiset_axioms;

    if hi > lo {
        lemma_doubled_entries(m, lo, hi - 1);
        let c = (hi - 1) as char;
        assert(m.add(m).count(c) == 2 * m.count(c));
    }
    assert(entries_between(m.add(m), lo, hi) =~= scaled(entries_between(m, lo, hi), 2));
}

/// Repetition: a text written twice in a row is twice as long and has the
/// table of the text itself with every count doubled, so every code point
/// keeps its share of the text.
pub proof fn lemma_repetition_keeps_shares(text: Seq<char>)
    ensures
        (text + text).len() == 2 * text.len(),
        frequencies(text + text) == scaled(frequencies(text), 2),
        forall|i: int|
            0 <= i < frequencies(text).len() ==> {
                &&& (#[trigger] frequencies(text + text)[i]).0 == frequencies(text)[i].0
                &&& frequencies(text + text)[i].1 * text.len() == frequencies(text)[i].1 * (text
                    + text).len()
            },
{
    let m = text.to_multiset();
    vstd::seq_lib::lemma_multiset_commutative(text, text);
    assert((text + text).to_multiset() == m.add(m));
    lemma_doubled_entries(m, ASCII_SLOTS as int, code_space_end());
    lemma_doubled_entries(m, 0, ASCII_SLOTS as int);
    assert(frequencies(text + text) =~= scaled(frequencies(text), 2));
    assert forall|i: int| 0 <= i < frequencies(text).len() implies {
        &&& (#[trigger] frequencies(text + text)[i]).0 == frequencies(text)[i].0
        &&& frequencies(text + text)[i].1 * text.len() == frequencies(text)[i].1 * (text
            + text).len()
    } by {
        let k = frequencies(text)[i].1;
        let n = text.len();
        assert((2 * k) * n == k * (2 * n)) by (nonlinear_arith);
    }
}

/// The empty text has length zero and the empty table.
pub proof fn lemma_empty_text()
    ensures
        frequencies(Seq::<char>::empty()) == Seq::<(char, nat)>::empty(),
{
    let text = Seq::<char>::empty();
    let m = text.to_multiset();
    assert forall|c: char| m.count(c) == 0 by {
        lemma_occurrences_bounded(text, c);
    }
    let none = Seq::<(char, nat)>::empty();
    lemma_entries_unique(none, m, ASCII_SLOTS as int, code_space_end());
    lemma_entries_unique(none, m, 0, ASCII_SLOTS as int);
    assert(frequencies(text) =~= none);
}

/// A text in which only one code point occurs, once or more often, has a
/// table of one entry, whose count is the length of the text: that code
/// point has the whole share. A text of a single code point is such a text.
pub proof fn lemma_single_code_point(text: Seq<char>)
    requires
        text.len() >= 1,
        forall|i: int| 0 <= i < text.len() ==> #[trigger] text[i] == text[0],
    ensures
        frequencies(text) == seq![(text[0], text.len())],
{
    assert(text =~= repeated(text[0], text.len()));
    lemma_repeated_table(text[0], text.len());
}

/// The table of the text that repeats `c` `n >= 1` times.
proof fn lemma_repeated_table(c: char, n: nat)
    requires
        n >= 1,
    ensures
        frequencies(repeated(c, n)) == seq![(c, n)],
{
    let text = repeated(c, n);
    let m = text.to_multiset();
    lemma_repeated_occurrences(c, n);
    lemma_code_round_trip(c);
    let one = seq![(c, n)];
    assert(occurrences(text, c) == n);
    assert(one[0] == (c, n));
    let none = Seq::<(char, nat)>::empty();
    assert forall|d: char| #[trigger] m.count(d) > 0 implies d == c by {
        assert(occurrences(text, d) > 0);
    }
    if code(c) < ASCII_SLOTS {
        assert(ascending(one));
        assert(counts_within(one, m, 0, ASCII_SLOTS as int));
        assert forall|d: char| 0 <= code(d) < ASCII_SLOTS && #[trigger] m.count(d) > 0 implies exists|
            i: int,
        |
            0 <= i < one.len() && #[trigger] one[i].0 == d by {
            assert(one[0].0 == d);
        }
        lemma_entries_unique(one, m, 0, ASCII_SLOTS as int);
        lemma_entries_unique(none, m, ASCII_SLOTS as int, code_space_end());
    } else {
        assert(counts_within(one, m, ASCII_SLOTS as int, code_space_end()));
        assert forall|d: char|
            ASCII_SLOTS <= code(d) < code_space_end() && #[trigger] m.count(d) > 0 implies exists|
            i: int,
        |
            0 <= i < one.len() && #[trigger] one[i].0 == d by {
            assert(one[0].0 == d);
        }
        lemma_entries_unique(one, m, ASCII_SLOTS as int, code_space_end());
        lemma_entries_unique(none, m, 0, ASCII_SLOTS as int);
    }
    assert(frequencies(text) =~= one);
}

/// In a text that repeats `c` `n` times, `c` occurs `n` times and nothing else occurs.
proof fn lemma_repeated_occurrences(c: char, n: nat)
    ensures
        forall|d: char| #[trigger]
            occurrences(repeated(c, n), d) == if d == c {
                n
            } else {
                0
            },
    decreases n,
{
    broadcast use vstd::multiset::group_multiset_axioms;

    let text = repeated(c, n);
    if n == 0 {
        assert forall|d: char| #[trigger] occurrences(text, d) == 0 by {
            lemma_occurrences_bounded(text, d);
        }
    } else {
        let front = repeated(c, (n - 1) as nat);
        lemma_repeated_occurrences(c, (n - 1) as nat);
        lemma_occurrences_push(front, c);
        assert(text =~= front.push(c));
        assert forall|d: char| #[trigger] occurrences(text, d) == if d == c {
            n
        } else {
            0
        } by {
            assert(occurrences(front.push(c), d) == occurrences(front, d) + if d == c {
                1nat
            } else {
                0nat
            });
        }
    }
}

/// Every entry of a table counts at least one occurrence and at most as
/// many as the text has code points, and stands for a code point of the text.
pub proof fn lemma_counts_bounded(text: Seq<char>)
    ensures
        forall|i: int|
            0 <= i < frequencies(text).len() ==> {
                &&& 1 <= (#[trigger] frequencies(text)[i]).1 <= text.len()
                &&& frequencies(text)[i].1 == occurrences(text, frequencies(text)[i].0)
                &&& text.contains(frequencies(text)[i].0)
            },
{
    let m = text.to_multiset();
    lemma_entries_between_sound(m, ASCII_SLOTS as int, code_space_end());
    lemma_entries_between_sound(m, 0, ASCII_SLOTS as int);
    text.to_multiset_ensures();
    let wide = wide_part(text);
    let narrow = ascii_part(text);
    assert forall|i: int| 0 <= i < frequencies(text).len() implies {
        &&& 1 <= (#[trigger] frequencies(text)[i]).1 <= text.len()
        &&& frequencies(text)[i].1 == occurrences(text, frequencies(text)[i].0)
        &&& text.contains(frequencies(text)[i].0)
    } by {
        let e = frequencies(text)[i];
        if i < wide.len() {
            assert(e == wide[i]);
        } else {
            assert(e == narrow[i - wide.len()]);
        }
        lemma_occurrences_bounded(text, e.0);
    }
}

/// The code points that a table lists, in its order.
pub open spec fn code_points_of(t: Seq<(char, nat)>) -> Seq<char> {
    Seq::new(t.len(), |i: int| t[i].0)
}

/// A table lists each distinct code point of its text once and nothing
/// else, so it has as many entries as the text has distinct code points.
pub proof fn lemma_one_entry_per_distinct_code_point(text: Seq<char>)
    ensures
        code_points_of(frequencies(text)).no_duplicates(),
        code_points_of(frequencies(text)).to_set() == text.to_set(),
        frequencies(text).len() == text.to_set().len(),
{
    let m = text.to_multiset();
    let wide = wide_part(text);
    let narrow = ascii_part(text);
    let points = code_points_of(frequencies(text));
    lemma_entries_between_sound(m, ASCII_SLOTS as int, code_space_end());
    lemma_entries_between_sound(m, 0, ASCII_SLOTS as int);
    text.to_multiset_ensures();
    assert forall|i: int| 0 <= i < points.len() implies #[trigger] points[i] == (if i < wide.len() {
        wide[i].0
    } else {
        narrow[i - wide.len()].0
    }) by {}
    assert forall|i: int, j: int| 0 <= i < j < points.len() implies points[i] != points[j] by {
        assert(code(points[i]) != code(points[j]));
    }
    assert forall|c: char| points.contains(c) <==> text.contains(c) by {
        if points.contains(c) {
            let i = choose|i: int| 0 <= i < points.len() && points[i] == c;
            assert(m.count(c) > 0);
        }
        if text.contains(c) {
            lemma_code_round_trip(c);
            assert(m.count(c) > 0);
            if code(c) < ASCII_SLOTS {
                let i = choose|i: int| 0 <= i < narrow.len() && #[trigger] narrow[i].0 == c;
                assert(points[wide.len() + i] == c);
            } else {
                let i = choose|i: int| 0 <= i < wide.len() && #[trigger] wide[i].0 == c;
                assert(points[i] == c);
            }
        }
    }
    assert(points.to_set() =~= text.to_set());
    points.unique_seq_to_set();
}

/// The sum of the counts of a table.
pub open spec fn sum_of_counts(t: Seq<(char, nat)>) -> nat
    decreases t.len(),
{
    if t.len() == 0 {
        0
    } else {
        sum_of_counts(t.drop_last()) + t.last().1
    }
}

/// The sum over two tables in a row is the sum of their sums.
proof fn lemma_sum_of_counts_concat(a: Seq<(char, nat)>, b: Seq<(char, nat)>)
    ensures
        sum_of_counts(a + b) == sum_of_counts(a) + sum_of_counts(b),
    decreases b.len(),
{
    if b.len() == 0 {
        assert(a + b =~= a);
    } else {
        lemma_sum_of_counts_concat(a, b.drop_last());
        assert((a + b).drop_last() =~= a + b.drop_last());
    }
}

/// One more occurrence of `c` raises the sum over a range by one if `c`
/// lies in the range, and leaves it otherwise.
proof fn lemma_sum_after_insert(m: Multiset<char>, c: char, lo: int, hi: int)
    ensures
        sum_of_counts(entries_between(m.insert(c), lo, hi)) == sum_of_counts(
            entries_between(m, lo, hi),
        ) + if lo <= code(c) < hi {
            1nat
        } else {
            0nat
        },
    decreases hi - lo,
{
    broadcast use vstd::multiset::group_multiset_axioms;

    if hi > lo {
        let top = hi - 1;
        let at_top = top as char;
        lemma_sum_after_insert(m, c, lo, top);
        lemma_code_round_trip(c);
        let below = entries_between(m, lo, top);
        let below_after = entries_between(m.insert(c), lo, top);
        if m.count(at_top) > 0 {
            assert(below.push((at_top, m.count(at_top))).drop_last() =~= below);
        }
        if m.insert(c).count(at_top) > 0 {
            assert(below_after.push((at_top, m.insert(c).count(at_top))).drop_last()
                =~= below_after);
        }
    }
}

/// The counts of a table add up to the length of its text: the shares of
/// the code points add up to one.
pub proof fn lemma_counts_sum_to_length(text: Seq<char>)
    ensures
        sum_of_counts(frequencies(text)) == text.len(),
    decreases text.len(),
{
    if text.len() == 0 {
        assert(text =~= Seq::<char>::empty());
        lemma_empty_text();
    } else {
        let front = text.drop_last();
        let c = text.last();
        lemma_counts_sum_to_length(front);
        front.to_multiset_ensures();
        assert(text =~= front.push(c));
        let m = front.to_multiset();
        assert(text.to_multiset() == m.insert(c));
        lemma_code_round_trip(c);
        lemma_sum_after_insert(m, c, ASCII_SLOTS as int, code_space_end());
        lemma_sum_after_insert(m, c, 0, ASCII_SLOTS as int);
        lemma_sum_of_counts_concat(wide_part(front), ascii_part(front));
        lemma_sum_of_counts_concat(wide_part(text), ascii_part(text));
    }
}

} // verus!
