//! Building the frequency table of a string.
//!
//! ASCII code points are counted in an array indexed by their value; all other
//! code points are counted in an ordered map keyed by their value. The two
//! parts are then read out, the map first, into one table.

use crate::model::{
    ascending, ascii_part, code, code_space_end, entries_between, frequencies,
    lemma_code_round_trip, lemma_entries_unique, lemma_occurrences_bounded,
    lemma_occurrences_push, occurrences, wide_part, ASCII_SLOTS,
};
use std::collections::BTreeMap;
use vstd::prelude::*;
use vstd::std_specs::btree::increasing_seq;
use vstd::std_specs::cmp::OrdSpec;
use vstd::std_specs::iter::IteratorSpec;

verus! {

/// The frequency table of a text: its number of code points, and one entry
/// per distinct code point with the number of times it occurs.
pub struct FrequencyTable {
    /// Number of code points in the text (not its length in bytes).
    pub total: usize,
    /// The distinct code points with their counts; non-ASCII code points
    /// first, each group in ascending order.
    pub entries: Vec<(char, usize)>,
}

/// An entry with its count as a mathematical number.
pub open spec fn entry_view(e: (char, usize)) -> (char, nat) {
    (e.0, e.1 as nat)
}

/// A list of entries with their counts as mathematical numbers.
pub open spec fn entries_view(entries: Seq<(char, usize)>) -> Seq<(char, nat)> {
    Seq::new(entries.len(), |i: int| entry_view(entries[i]))
}

impl View for FrequencyTable {
    type V = Seq<(char, nat)>;

    open spec fn view(&self) -> Seq<(char, nat)> {
        entries_view(self.entries@)
    }
}

/// The array holds, for each ASCII code point, its number of occurrences in `seen`.
pub open spec fn ascii_counts(slots: Seq<usize>, seen: Seq<char>) -> bool {
    &&& slots.len() == ASCII_SLOTS
    &&& forall|c: char| code(c) < ASCII_SLOTS ==> slots[code(c) as int] == #[trigger] occurrences(seen, c)
}

/// The map holds, under the value of each non-ASCII code point that occurs in
/// `seen`, that code point and its number of occurrences, and nothing else.
pub open spec fn wide_counts(wide: Map<u32, (char, usize)>, seen: Seq<char>) -> bool {
    &&& forall|k: u32| #[trigger]
        wide.contains_key(k) ==> {
            &&& k >= ASCII_SLOTS
            &&& code(wide[k].0) == k
            &&& wide[k].1 == occurrences(seen, wide[k].0)
            &&& wide[k].1 > 0
        }
    &&& forall|c: char|
        code(c) >= ASCII_SLOTS && #[trigger] occurrences(seen, c) > 0 ==> wide.contains_key(code(c))
}

/// A text has at most as many code points as its encoding has bytes.
pub proof fn lemma_code_points_fit_bytes(text: Seq<char>)
    ensures
        text.len() <= vstd::utf8::encode_utf8(text).len(),
    decreases text.len(),
{
    if text.len() > 0 {
        lemma_code_points_fit_bytes(text.drop_first());
        assert(vstd::utf8::encode_scalar(text[0] as u32).len() >= 1);
    }
}

/// Counts one more occurrence of the non-ASCII code point `ch`, whose value is `key`.
fn record_wide(
    wide: &mut BTreeMap<u32, (char, usize)>,
    key: u32,
    ch: char,
    Ghost(seen): Ghost<Seq<char>>,
)
    requires
        key == code(ch),
        key >= ASCII_SLOTS,
        wide_counts(old(wide)@, seen),
        seen.len() < usize::MAX,
    ensures
        wide_counts(final(wide)@, seen.push(ch)),
{
    broadcast use vstd::std_specs::btree::group_btree_axioms;
    broadcast use vstd::laws_cmp::group_laws_cmp;

    proof {
        lemma_occurrences_push(seen, ch);
        lemma_occurrences_bounded(seen, ch);
    }
    let earlier: usize = match wide.get(&key) {
        Some(entry) => entry.1,
        None => 0,
    };
    proof {
        if wide@.contains_key(key) {
            lemma_code_round_trip(wide@[key].0);
            lemma_code_round_trip(ch);
            assert(wide@[key].0 == ch);
        }
        assert(earlier == occurrences(seen, ch));
    }
    wide.insert(key, (ch, earlier + 1));
    proof {
        let after = wide@;
        assert forall|c: char|
            code(c) >= ASCII_SLOTS && #[trigger] occurrences(seen.push(ch), c) > 0 implies after.contains_key(
            code(c),
        ) by {
            if c != ch {
                assert(occurrences(seen, c) > 0);
            }
        }
        assert forall|k: u32| #[trigger] after.contains_key(k) implies {
            &&& k >= ASCII_SLOTS
            &&& code(after[k].0) == k
            &&& after[k].1 == occurrences(seen.push(ch), after[k].0)
            &&& after[k].1 > 0
        } by {
            if k != key {
                assert(old(wide)@.contains_key(k));
                lemma_code_round_trip(after[k].0);
                lemma_code_round_trip(ch);
            }
        }
    }
}

/// The numeric value of the code point `ch`.
fn value_of(ch: char) -> (v: u32)
    ensures
        v == code(ch),
{
    ch as u32
}

/// Counts one more occurrence of the ASCII code point `ch`, whose value is `key`.
fn record_ascii(slots: &mut [usize; 128], key: u32, ch: char, Ghost(seen): Ghost<Seq<char>>)
    requires
        key == code(ch),
        key < ASCII_SLOTS,
        ascii_counts(old(slots)@, seen),
        seen.len() < usize::MAX,
    ensures
        ascii_counts(final(slots)@, seen.push(ch)),
{
    proof {
        lemma_occurrences_push(seen, ch);
        lemma_occurrences_bounded(seen, ch);
    }
    let slot: usize = key as usize;
    let earlier: usize = slots[slot];
    slots[slot] = earlier + 1;
    proof {
        assert forall|c: char| code(c) < ASCII_SLOTS implies slots@[code(c) as int]
            == #[trigger] occurrences(seen.push(ch), c) by {
            lemma_code_round_trip(c);
            lemma_code_round_trip(ch);
        }
    }
}

/// One pass over the code points of `s`: the number of code points, the
/// counts of the ASCII code points by value, and the counts of the others
/// under their value.
fn count_code_points(s: &str) -> (counted: (usize, [usize; 128], BTreeMap<u32, (char, usize)>))
    ensures
        counted.0 == s@.len(),
        ascii_counts(counted.1@, s@),
        wide_counts(counted.2@, s@),
{
    // No counter can overflow: there are at most as many code points as bytes.
    let encoded_len: usize = s.as_bytes().len();
    proof {
        lemma_code_points_fit_bytes(s@);
        assert(s@.len() <= encoded_len);
    }
    let mut wide: BTreeMap<u32, (char, usize)> = BTreeMap::new();
    let mut slots: [usize; 128] = [0; 128];
    let mut total: usize = 0;
    proof {
        assert(s@.take(0) =~= Seq::<char>::empty());
        assert forall|c: char| #[trigger] occurrences(Seq::<char>::empty(), c) == 0 by {
            lemma_occurrences_bounded(Seq::<char>::empty(), c);
        }
    }
    for ch in it: s.chars()
        invariant
            it.seq() == s@,
            s@.len() <= usize::MAX,
            total == it.index(),
            ascii_counts(slots@, s@.take(it.index())),
            wide_counts(wide@, s@.take(it.index())),
    {
        let ghost seen = s@.take(total as int);
        proof {
            assert(s@.take(total + 1) =~= seen.push(ch));
            lemma_occurrences_push(seen, ch);
        }
        let key: u32 = value_of(ch);
        if key < 128 {
            record_ascii(&mut slots, key, ch, Ghost(seen));
            assert(wide_counts(wide@, seen.push(ch)));
        } else {
            record_wide(&mut wide, key, ch, Ghost(seen));
            assert(ascii_counts(slots@, seen.push(ch)));
        }
        total = total + 1;
    }
    proof {
        assert(s@.take(total as int) =~= s@);
    }
    (total, slots, wide)
}

/// Keys that the ordered map yields as increasing are increasing as numbers.
proof fn lemma_increasing_keys(keys: Seq<u32>)
    requires
        increasing_seq(keys),
    ensures
        forall|i: int, j: int| 0 <= i < j < keys.len() ==> keys[i] < keys[j],
{
    broadcast use vstd::std_specs::btree::group_btree_axioms;
    broadcast use vstd::laws_cmp::group_laws_cmp;

    assert forall|i: int, j: int| 0 <= i < j < keys.len() implies keys[i] < keys[j] by {
        assert(keys[i].cmp_spec(&keys[j]) is Less);
    }
}

/// Reads the map out in ascending order of its keys.
#[verifier::loop_isolation(false)]
fn wide_entries(wide: &BTreeMap<u32, (char, usize)>, Ghost(text): Ghost<Seq<char>>) -> (entries: Vec<
    (char, usize),
>)
    requires
        wide_counts(wide@, text),
    ensures
        entries_view(entries@) == wide_part(text),
{
    broadcast use vstd::std_specs::btree::group_btree_axioms;
    broadcast use vstd::laws_cmp::group_laws_cmp;

    let mut entries: Vec<(char, usize)> = Vec::new();
    let pairs = wide.iter();
    let ghost items = pairs.remaining();
    let ghost keys = items.map_values(|kv: (&u32, &(char, usize))| *kv.0);
    for pair in it: pairs
        invariant
            it.seq() == items,
            entries@.len() == it.index(),
            forall|i: int| 0 <= i < it.index() ==> entries@[i] == *items[i].1,
    {
        entries.push(*pair.1);
    }
    proof {
        let listed = entries_view(entries@);
        let m = text.to_multiset();
        assert(listed.len() == items.len());
        assert forall|i: int| 0 <= i < listed.len() implies wide@.contains_key(*items[i].0)
            && wide@[*items[i].0] == entries@[i] && code(#[trigger] listed[i].0) == *items[i].0 by {
            assert(wide@.contains_key(*items[i].0));
            assert(wide@[*items[i].0] == *items[i].1);
        }
        assert forall|i: int, j: int| 0 <= i < j < listed.len() implies code(listed[i].0) < code(
            listed[j].0,
        ) by {
            assert(keys[i] == *items[i].0);
            assert(keys[j] == *items[j].0);
            lemma_increasing_keys(keys);
        }
        assert(ascending(listed));
        assert forall|i: int| 0 <= i < listed.len() implies {
            &&& 128 <= code(#[trigger] listed[i].0) < code_space_end()
            &&& listed[i].1 == m.count(listed[i].0)
            &&& listed[i].1 > 0
        } by {
            lemma_code_round_trip(listed[i].0);
            assert(wide@.contains_key(*items[i].0));
        }
        assert forall|c: char| 128 <= code(c) < code_space_end() && #[trigger] m.count(c) > 0 implies exists|
            i: int,
        |
            0 <= i < listed.len() && #[trigger] listed[i].0 == c by {
            let k = code(c);
            assert(occurrences(text, c) > 0);
            assert(wide@.contains_key(k));
            assert(items.contains((&k, &wide@[k])));
            let i = choose|i: int| 0 <= i < items.len() && items[i] == (&k, &wide@[k]);
            lemma_code_round_trip(c);
            lemma_code_round_trip(listed[i].0);
            assert(listed[i].0 == c);
        }
        lemma_entries_unique(listed, m, 128, code_space_end());
    }
    entries
}

/// Appends an entry for each ASCII code point that occurs, in ascending
/// order of value. Slots that hold zero are skipped.
fn push_ascii_entries(
    entries: &mut Vec<(char, usize)>,
    slots: &[usize; 128],
    Ghost(text): Ghost<Seq<char>>,
)
    requires
        ascii_counts(slots@, text),
    ensures
        entries_view(final(entries)@) == entries_view(old(entries)@) + ascii_part(text),
{
    let ghost before = entries_view(entries@);
    let ghost m = text.to_multiset();
    let mut value: u8 = 0;
    proof {
        assert(entries_view(entries@) =~= before + entries_between(m, 0, 0));
    }
    while value < 128
        invariant
            value <= 128,
            ascii_counts(slots@, text),
            m == text.to_multiset(),
            entries_view(entries@) == before + entries_between(m, 0, value as int),
        decreases 128 - value,
    {
        let ch: char = value as char;
        let count: usize = slots[value as usize];
        proof {
            lemma_code_round_trip(ch);
            assert(count == occurrences(text, ch));
        }
        let ghost earlier = entries@;
        if count != 0 {
            entries.push((ch, count));
            proof {
                assert(entries_view(entries@) =~= entries_view(earlier).push((ch, count as nat)));
                assert(entries_view(entries@) =~= before + entries_between(m, 0, value + 1));
            }
        }
        value = value + 1;
    }
}

impl FrequencyTable {
    /// Whether this is the frequency table of `text`.
    pub open spec fn describes(&self, text: Seq<char>) -> bool {
        &&& self.total == text.len()
        &&& self@ == frequencies(text)
    }
}

/// Builds the frequency table of `s` in one pass over its code points.
///
/// The table holds the number of code points of `s` (its length in code
/// points, whatever their width in bytes) and one entry for each distinct code
/// point with its number of occurrences. The empty string has the empty table.
pub fn code_point_frequencies(s: &str) -> (table: FrequencyTable)
    ensures
        table.describes(s@),
{
    let (total, slots, wide) = count_code_points(s);
    let mut entries = wide_entries(&wide, Ghost(s@));
    push_ascii_entries(&mut entries, &slots, Ghost(s@));
    FrequencyTable { total, entries }
}

} // verus!
