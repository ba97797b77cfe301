use nicop::frequency::{analyze_chars_frequencies, FreqTable, PLACEHOLDER};

fn feed(table: &mut FreqTable, calls: &[(usize, char)]) {
    for &(slot, ch) in calls {
        table.add(slot, ch);
    }
}

#[test]
fn a_new_table_reports_the_placeholder_for_every_slot() {
    assert_eq!(PLACEHOLDER, ' ');
    assert_eq!(FreqTable::new().get_most_frequent_chars(), vec![' ', ' ', ' ', ' ']);
}

#[test]
fn the_highest_count_wins() {
    let mut table = FreqTable::new();
    feed(&mut table, &[(0, 'a'), (0, 'b'), (0, 'b'), (2, 'x'), (2, 'y'), (2, 'x'), (2, 'x')]);
    assert_eq!(table.get_most_frequent_chars(), vec!['b', ' ', 'x', ' ']);
}

#[test]
fn the_character_seen_first_wins_a_tie() {
    let mut one = FreqTable::new();
    feed(&mut one, &[(1, 'a'), (1, 'b')]);
    assert_eq!(one.get_most_frequent_chars()[1], 'a');
    let mut other = FreqTable::new();
    feed(&mut other, &[(1, 'b'), (1, 'a')]);
    assert_eq!(other.get_most_frequent_chars()[1], 'b');
    let mut third = FreqTable::new();
    feed(&mut third, &[(1, 'z'), (1, 'b'), (1, 'a'), (1, 'a'), (1, 'b'), (1, 'z')]);
    assert_eq!(third.get_most_frequent_chars()[1], 'z');
}

#[test]
fn a_later_character_wins_only_with_a_higher_count() {
    let mut table = FreqTable::new();
    feed(&mut table, &[(3, 'a'), (3, 'b'), (3, 'b'), (3, 'a'), (3, 'c'), (3, 'c'), (3, 'c')]);
    assert_eq!(table.get_most_frequent_chars()[3], 'c');
}

#[test]
fn slots_do_not_influence_each_other() {
    let slot_0 = ['a', 'b', 'b'];
    let slot_1 = ['c', 'c', 'd'];
    let slot_3 = ['e', 'f', 'e'];
    let mut separately = FreqTable::new();
    for ch in slot_0 {
        separately.add(0, ch);
    }
    for ch in slot_1 {
        separately.add(1, ch);
    }
    for ch in slot_3 {
        separately.add(3, ch);
    }
    let mut interleaved = FreqTable::new();
    for i in 0..3 {
        interleaved.add(3, slot_3[i]);
        interleaved.add(0, slot_0[i]);
        interleaved.add(1, slot_1[i]);
    }
    let mut backwards = FreqTable::new();
    for ch in slot_3 {
        backwards.add(3, ch);
    }
    for ch in slot_1 {
        backwards.add(1, ch);
    }
    for ch in slot_0 {
        backwards.add(0, ch);
    }
    let expected = vec!['b', 'c', ' ', 'e'];
    assert_eq!(separately.get_most_frequent_chars(), expected);
    assert_eq!(interleaved.get_most_frequent_chars(), expected);
    assert_eq!(backwards.get_most_frequent_chars(), expected);
}

#[test]
fn counts_decide_where_there_is_no_tie() {
    let mut one = FreqTable::new();
    feed(&mut one, &[(0, 'a'), (0, 'b'), (0, 'b'), (0, 'c')]);
    let mut other = FreqTable::new();
    feed(&mut other, &[(0, 'c'), (0, 'b'), (0, 'a'), (0, 'b')]);
    assert_eq!(one.get_most_frequent_chars(), other.get_most_frequent_chars());
    assert_eq!(one.get_most_frequent_chars()[0], 'b');
}

#[test]
fn reading_the_table_does_not_change_it() {
    let mut table = FreqTable::new();
    feed(&mut table, &[(0, 'q'), (1, 'r')]);
    assert_eq!(table.get_most_frequent_chars(), table.get_most_frequent_chars());
}

#[test]
fn analyze_feeds_each_character_to_the_slot_of_its_position() {
    let text = String::from("abcdaxcyazcw");
    assert_eq!(analyze_chars_frequencies(FreqTable::new(), &text), vec!['a', 'b', 'c', 'd']);
}

#[test]
fn analyze_of_the_empty_text_reports_placeholders() {
    assert_eq!(analyze_chars_frequencies(FreqTable::new(), &String::new()), vec![' '; 4]);
}

#[test]
fn analyze_of_a_short_text_leaves_late_slots_empty() {
    assert_eq!(
        analyze_chars_frequencies(FreqTable::new(), &String::from("xy")),
        vec!['x', 'y', ' ', ' ']
    );
}

#[test]
fn analyze_counts_characters_not_bytes() {
    let text = String::from("\u{e9}\u{1f600}\u{e9}\u{1f600}\u{e9}\u{1f600}");
    assert_eq!(
        analyze_chars_frequencies(FreqTable::new(), &text),
        vec!['\u{e9}', '\u{1f600}', '\u{e9}', '\u{1f600}']
    );
}

#[test]
fn analyze_goes_on_from_what_the_table_holds() {
    let mut table = FreqTable::new();
    feed(&mut table, &[(0, 'z'), (0, 'z'), (0, 'z')]);
    assert_eq!(
        analyze_chars_frequencies(table, &String::from("abcdabcd")),
        vec!['z', 'b', 'c', 'd']
    );
}
