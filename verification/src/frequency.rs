//! Per-slot character tallies and the most frequent character of each slot.
//!
//! A table is modelled by what it has been fed: one history per key slot,
//! the characters it received in the order in which they arrived.
//! Everything the table reports is a function of those histories.

use crate::chars::chars_of;
use crate::history::{
    first_position, leads, lemma_first_position, lemma_leader_is_most_frequent,
    lemma_occurrences_bounded, lemma_occurrences_concat, lemma_occurrences_positive,
    lemma_occurrences_push, most_frequent, occurrences,
};
use vstd::prelude::*;

verus! {

/// Number of key slots, and therefore of independent tallies.
pub const SLOTS: usize = 4;

/// Character reported for a slot that never received any.
pub const PLACEHOLDER: char = ' ';

/// A table that has been fed nothing.
pub open spec fn empty_table() -> Seq<Seq<char>> {
    Seq::new(SLOTS as nat, |s: int| Seq::<char>::empty())
}

/// The table `t` after slot `slot` received `c`.
pub open spec fn fed(t: Seq<Seq<char>>, slot: int, c: char) -> Seq<Seq<char>> {
    t.update(slot, t[slot].push(c))
}

/// The characters of `text` whose position falls on key slot `slot`, in
/// order: those at `slot`, `slot + 4`, `slot + 8`, and so on.
pub open spec fn stripe(text: Seq<char>, slot: int) -> Seq<char> {
    Seq::new(((text.len() + 3 - slot) / 4) as nat, |j: int| text[4 * j + slot])
}

/// The table `t` after every character of `text` was fed to the slot of its
/// position.
pub open spec fn tabulated(t: Seq<Seq<char>>, text: Seq<char>) -> Seq<Seq<char>> {
    Seq::new(SLOTS as nat, |s: int| t[s] + stripe(text, s))
}

/// The table reached from `t` by the calls `calls` to `add`, each given as
/// its slot and its character.
pub open spec fn replayed(t: Seq<Seq<char>>, calls: Seq<(int, char)>) -> Seq<Seq<char>>
    decreases calls.len(),
{
    if calls.len() == 0 {
        t
    } else {
        fed(replayed(t, calls.drop_last()), calls.last().0, calls.last().1)
    }
}

/// The characters that `calls` address to `slot`, in call order.
pub open spec fn addressed(calls: Seq<(int, char)>, slot: int) -> Seq<char>
    decreases calls.len(),
{
    if calls.len() == 0 {
        Seq::empty()
    } else {
        let earlier = addressed(calls.drop_last(), slot);
        if calls.last().0 == slot {
            earlier.push(calls.last().1)
        } else {
            earlier
        }
    }
}

/// `entries` tallies `h`: one entry for each distinct character of `h`,
/// holding its count, in the order in which the characters first appeared.
spec fn tallies(entries: Seq<(char, u64)>, h: Seq<char>) -> bool {
    &&& forall|i: int|
        0 <= i < entries.len() ==> (#[trigger] entries[i]).1 == occurrences(h, entries[i].0)
            && entries[i].1 >= 1
    &&& forall|i: int, j: int|
        0 <= i < j < entries.len() ==> first_position(h, (#[trigger] entries[i]).0)
            < first_position(h, (#[trigger] entries[j]).0)
    &&& forall|c: char| #[trigger]
        occurrences(h, c) > 0 ==> exists|i: int|
            0 <= i < entries.len() && (#[trigger] entries[i]).0 == c
}

/// Character tallies, one per key slot.
pub struct FreqTable {
    slots: Vec<Vec<(char, u64)>>,
    seen: Ghost<Seq<Seq<char>>>,
}

impl View for FreqTable {
    type V = Seq<Seq<char>>;

    /// The characters each slot has received, in order of arrival.
    closed spec fn view(&self) -> Seq<Seq<char>> {
        self.seen@
    }
}

impl FreqTable {
    /// The stored counts agree with what the table has received.
    pub closed spec fn consistent(&self) -> bool {
        &&& self.slots@.len() == SLOTS
        &&& forall|s: int| 0 <= s < SLOTS ==> tallies(#[trigger] self.slots@[s]@, self.seen@[s])
    }

    /// The table has one history per slot and its counts agree with them.
    pub open spec fn wf(&self) -> bool {
        &&& self@.len() == SLOTS
        &&& self.consistent()
    }

    /// A table with four empty tallies.
    pub fn new() -> (table: FreqTable)
        ensures
            table.wf(),
            table@ == empty_table(),
    {
        let mut slots: Vec<Vec<(char, u64)>> = Vec::new();
        let mut s: usize = 0;
        while s < SLOTS
            invariant
                s <= SLOTS,
                slots@.len() == s,
                forall|t: int| 0 <= t < s ==> (#[trigger] slots@[t])@.len() == 0,
            decreases SLOTS - s,
        {
            slots.push(Vec::new());
            s += 1;
        }
        let table = FreqTable { slots, seen: Ghost(empty_table()) };
        proof {
            assert forall|t: int| 0 <= t < SLOTS implies tallies(
                #[trigger] table.slots@[t]@,
                table.seen@[t],
            ) by {
                let h = table.seen@[t];
                assert forall|c: char| !(#[trigger] occurrences(h, c) > 0) by {
                    lemma_occurrences_positive(h, c);
                }
            }
        }
        table
    }

    /// Counts one more occurrence of `ch` in slot `table_index`.
    pub fn add(&mut self, table_index: usize, ch: char)
        requires
            old(self).wf(),
            table_index < SLOTS,
            occurrences(old(self)@[table_index as int], ch) < u64::MAX,
        ensures
            final(self).wf(),
            final(self)@ == fed(old(self)@, table_index as int, ch),
    {
        let ghost h = self.seen@[table_index as int];
        let ghost before = self.slots@[table_index as int]@;
        let n: usize = self.slots[table_index].len();
        let mut i: usize = 0;
        while i < n && self.slots[table_index][i].0 != ch
            invariant
                table_index < SLOTS,
                self.slots@.len() == SLOTS,
                self.slots@[table_index as int]@ == before,
                n == before.len(),
                i <= n,
                forall|j: int| 0 <= j < i ==> (#[trigger] before[j]).0 != ch,
            decreases n - i,
        {
            i += 1;
        }
        proof {
            lemma_occurrences_positive(h, ch);
            lemma_first_position(h, ch);
            assert forall|j: int| 0 <= j < before.len() implies first_position(
                h.push(ch),
                (#[trigger] before[j]).0,
            ) == first_position(h, before[j].0) && first_position(h, before[j].0) < h.len() by {
                lemma_occurrences_positive(h, before[j].0);
                lemma_first_position(h, before[j].0);
                assert(h.push(ch).drop_last() =~= h);
            }
            assert(h.push(ch).drop_last() =~= h);
            assert forall|c: char|
                occurrences(h.push(ch), c) == #[trigger] occurrences(h, c) + if ch == c {
                    1nat
                } else {
                    0nat
                } by {
                lemma_occurrences_push(h, ch, c);
            }
        }
        if i < n {
            let entry: (char, u64) = self.slots[table_index][i];
            self.slots[table_index][i] = (entry.0, entry.1 + 1);
        } else {
            self.slots[table_index].push((ch, 1));
        }
        proof {
            self.seen@ = fed(self.seen@, table_index as int, ch);
            let after = self.slots@[table_index as int]@;
            let g = h.push(ch);
            assert(self.seen@[table_index as int] == g);
            assert forall|c: char| #[trigger] occurrences(g, c) > 0 implies exists|k: int|
                0 <= k < after.len() && (#[trigger] after[k]).0 == c by {
                lemma_occurrences_push(h, ch, c);
                if c == ch {
                    if i < n {
                        assert(after[i as int].0 == c);
                    } else {
                        assert(after[n as int].0 == c);
                    }
                } else {
                    assert(occurrences(h, c) > 0);
                    let k = choose|k: int| 0 <= k < before.len() && (#[trigger] before[k]).0 == c;
                    assert(after[k].0 == c);
                }
            }
            assert(tallies(after, g));
        }
    }

    /// The most frequent character of each slot, in slot order. Of the
    /// characters that share the highest count the one that reached the slot
    /// first is reported; a slot that received nothing reports
    /// [`PLACEHOLDER`].
    pub fn get_most_frequent_chars(&self) -> (max_chars: Vec<char>)
        requires
            self.wf(),
        ensures
            max_chars@.len() == SLOTS,
            forall|s: int| 0 <= s < SLOTS ==> #[trigger] max_chars@[s] == most_frequent(self@[s]),
    {
        let mut max_chars: Vec<char> = Vec::new();
        let mut s: usize = 0;
        while s < SLOTS
            invariant
                self.wf(),
                s <= SLOTS,
                max_chars@.len() == s,
                forall|t: int| 0 <= t < s ==> #[trigger] max_chars@[t] == most_frequent(self@[t]),
            decreases SLOTS - s,
        {
            let max_occ_ch: char = leader_of(&self.slots[s], Ghost(self.seen@[s as int]));
            proof {
                lemma_leader_is_most_frequent(self@[s as int], max_occ_ch);
            }
            max_chars.push(max_occ_ch);
            s += 1;
        }
        max_chars
    }
}

/// Scans one tally for the first entry with the highest count.
fn leader_of(entries: &Vec<(char, u64)>, Ghost(h): Ghost<Seq<char>>) -> (max_occ_ch: char)
    requires
        tallies(entries@, h),
    ensures
        leads(h, max_occ_ch),
{
    let mut max_occ_ch: char = PLACEHOLDER;
    let mut max_occ: u64 = 0;
    let ghost mut best: int = 0;
    let mut i: usize = 0;
    while i < entries.len()
        invariant
            tallies(entries@, h),
            i <= entries@.len(),
            i == 0 ==> max_occ == 0 && max_occ_ch == PLACEHOLDER,
            i > 0 ==> 0 <= best < i && entries@[best] == (max_occ_ch, max_occ),
            forall|j: int| 0 <= j < i ==> (#[trigger] entries@[j]).1 <= max_occ,
            forall|j: int| 0 <= j < best ==> (#[trigger] entries@[j]).1 < max_occ,
        decreases entries@.len() - i,
    {
        let entry: (char, u64) = entries[i];
        if entry.1 > max_occ {
            max_occ_ch = entry.0;
            max_occ = entry.1;
            proof {
                best = i as int;
            }
        }
        i += 1;
    }
    proof {
        if entries@.len() == 0 {
            if h.len() > 0 {
                assert(h.contains(h[0]));
                lemma_occurrences_positive(h, h[0]);
                assert(occurrences(h, h[0]) > 0);
            }
        } else {
            let c = max_occ_ch;
            lemma_occurrences_positive(h, c);
            assert forall|d: char| #[trigger] occurrences(h, d) <= occurrences(h, c) by {
                if occurrences(h, d) > 0 {
                    let k = choose|k: int|
                        0 <= k < entries@.len() && (#[trigger] entries@[k]).0 == d;
                    assert(entries@[k].1 <= max_occ);
                }
            }
            assert forall|d: char| occurrences(h, d) == occurrences(h, c) implies first_position(
                h,
                c,
            ) <= #[trigger] first_position(h, d) by {
                let k = choose|k: int| 0 <= k < entries@.len() && (#[trigger] entries@[k]).0 == d;
                assert(entries@[k].1 == max_occ);
                assert(best <= k);
            }
        }
    }
    max_occ_ch
}

/// Feeds the characters of `contents` to `freq_table`, the character at
/// position `i` to slot `i % 4`, and reports the most frequent character of
/// each slot.
///
/// No count may pass what 64 bits hold. A string is never longer than
/// `usize::MAX`, so a new table always meets this:
/// [`lemma_new_table_fits`] shows it.
pub fn analyze_chars_frequencies(freq_table: FreqTable, contents: &String) -> (max_chars: Vec<char>)
    requires
        freq_table.wf(),
        contents@.len() <= usize::MAX ==> forall|s: int, c: char|
            0 <= s < SLOTS ==> #[trigger] occurrences(tabulated(freq_table@, contents@)[s], c)
                <= u64::MAX,
    ensures
        max_chars@.len() == SLOTS,
        forall|s: int|
            0 <= s < SLOTS ==> #[trigger] max_chars@[s] == most_frequent(
                tabulated(freq_table@, contents@)[s],
            ),
{
    let ghost start = freq_table@;
    let ghost text = contents@;
    let mut table = freq_table;
    let contents_chars: Vec<char> = chars_of(contents.as_str());
    let total: usize = contents_chars.len();
    let mut i: usize = 0;
    proof {
        assert(tabulated(start, text.take(0)) =~~= start);
    }
    while i < total
        invariant
            contents_chars@ == text,
            total == text.len(),
            i <= total,
            start.len() == SLOTS,
            table.wf(),
            table@ == tabulated(start, text.take(i as int)),
            forall|s: int, c: char|
                0 <= s < SLOTS ==> #[trigger] occurrences(tabulated(start, text)[s], c) <= u64::MAX,
        decreases text.len() - i,
    {
        let ch: char = contents_chars[i];
        proof {
            let slot = (i % SLOTS) as int;
            lemma_tabulated_step(start, text, i as int);
            lemma_tabulated_prefix(start, text, i + 1, slot);
            let next = tabulated(start, text.take(i + 1))[slot];
            let rest = stripe(text, slot).skip(stripe(text.take(i + 1), slot).len() as int);
            lemma_occurrences_concat(next, rest, ch);
            lemma_occurrences_push(table@[slot], ch, ch);
            assert(occurrences(tabulated(start, text)[slot], ch) <= u64::MAX);
        }
        table.add(i % SLOTS, ch);
        i += 1;
    }
    proof {
        assert(text.take(i as int) =~= text);
    }
    table.get_most_frequent_chars()
}

/// Feeding one more character of `text` extends the history of its slot.
proof fn lemma_tabulated_step(t: Seq<Seq<char>>, text: Seq<char>, i: int)
    requires
        t.len() == SLOTS,
        0 <= i < text.len(),
    ensures
        tabulated(t, text.take(i + 1)) == fed(tabulated(t, text.take(i)), i % 4, text[i]),
{
    let a = text.take(i);
    let b = text.take(i + 1);
    let slot = i % 4;
    assert forall|s: int| 0 <= s < SLOTS implies #[trigger] stripe(b, s) == if s == slot {
        stripe(a, s).push(text[i])
    } else {
        stripe(a, s)
    } by {
        if s == slot {
            assert(stripe(b, s) =~= stripe(a, s).push(text[i]));
        } else {
            assert(stripe(b, s) =~= stripe(a, s));
        }
    }
    assert forall|s: int| 0 <= s < SLOTS implies #[trigger] tabulated(t, b)[s] == fed(
        tabulated(t, a),
        slot,
        text[i],
    )[s] by {
        assert(stripe(b, s) == if s == slot {
            stripe(a, s).push(text[i])
        } else {
            stripe(a, s)
        });
        if s == slot {
            assert(t[s] + stripe(a, s).push(text[i]) =~= (t[s] + stripe(a, s)).push(text[i]));
        }
    }
    assert(tabulated(t, b) =~= fed(tabulated(t, a), slot, text[i]));
}

/// What a slot holds after a prefix of `text` is a prefix of what it holds
/// after all of it.
proof fn lemma_tabulated_prefix(t: Seq<Seq<char>>, text: Seq<char>, k: int, slot: int)
    requires
        t.len() == SLOTS,
        0 <= k <= text.len(),
        0 <= slot < SLOTS,
    ensures
        stripe(text.take(k), slot).len() <= stripe(text, slot).len(),
        tabulated(t, text)[slot] == tabulated(t, text.take(k))[slot] + stripe(text, slot).skip(
            stripe(text.take(k), slot).len() as int,
        ),
{
    let part = stripe(text.take(k), slot);
    let whole = stripe(text, slot);
    assert(whole =~= part + whole.skip(part.len() as int));
    assert(t[slot] + (part + whole.skip(part.len() as int)) =~= (t[slot] + part) + whole.skip(
        part.len() as int,
    ));
}

/// A new table can take any text that a string can hold: no count passes
/// what 64 bits hold.
pub proof fn lemma_new_table_fits(text: Seq<char>)
    requires
        text.len() <= usize::MAX,
    ensures
        forall|s: int, c: char|
            0 <= s < SLOTS ==> #[trigger] occurrences(tabulated(empty_table(), text)[s], c)
                <= u64::MAX,
{
    assert forall|s: int, c: char| 0 <= s < SLOTS implies #[trigger] occurrences(
        tabulated(empty_table(), text)[s],
        c,
    ) <= u64::MAX by {
        let h = tabulated(empty_table(), text)[s];
        assert(h =~= stripe(text, s));
        lemma_occurrences_bounded(h, c);
    }
}

/// Slots do not influence each other: however calls to `add` for different
/// slots are interleaved, a slot ends up with the characters addressed to
/// it, in the order in which they were addressed, after what it held before.
/// Its most frequent character is therefore the one it would have if it had
/// been fed on its own.
pub proof fn law_slots_independent(t: Seq<Seq<char>>, calls: Seq<(int, char)>, slot: int)
    requires
        t.len() == SLOTS,
        0 <= slot < SLOTS,
        forall|i: int| 0 <= i < calls.len() ==> 0 <= (#[trigger] calls[i]).0 < SLOTS,
    ensures
        replayed(t, calls).len() == SLOTS,
        replayed(t, calls)[slot] == t[slot] + addressed(calls, slot),
        most_frequent(replayed(t, calls)[slot]) == most_frequent(t[slot] + addressed(calls, slot)),
    decreases calls.len(),
{
    if calls.len() == 0 {
        assert(t[slot] + addressed(calls, slot) =~= t[slot]);
    } else {
        let earlier = calls.drop_last();
        let call = calls.last();
        law_slots_independent(t, earlier, slot);
        if call.0 == slot {
            assert((t[slot] + addressed(earlier, slot)).push(call.1) =~= t[slot] + addressed(
                earlier,
                slot,
            ).push(call.1));
        }
    }
}

} // verus!
