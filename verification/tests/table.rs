use shannon_entropy::table::{code_point_frequencies, FrequencyTable};

fn entries_of(text: &str) -> Vec<(char, usize)> {
    code_point_frequencies(text).entries
}

#[test]
fn empty_text_has_empty_table() {
    let table: FrequencyTable = code_point_frequencies("");
    assert_eq!(table.total, 0);
    assert!(table.entries.is_empty());
}

#[test]
fn single_code_point_has_one_entry_with_the_whole_count() {
    let table = code_point_frequencies("a");
    assert_eq!(table.total, 1);
    assert_eq!(table.entries, vec![('a', 1)]);

    let table = code_point_frequencies("💣");
    assert_eq!(table.total, 1);
    assert_eq!(table.entries, vec![('💣', 1)]);

    let table = code_point_frequencies("zzzz");
    assert_eq!(table.total, 4);
    assert_eq!(table.entries, vec![('z', 4)]);
}

#[test]
fn ascii_entries_ascend_and_skip_absent_code_points() {
    assert_eq!(entries_of("abc"), vec![('a', 1), ('b', 1), ('c', 1)]);
    assert_eq!(entries_of("cba"), vec![('a', 1), ('b', 1), ('c', 1)]);
    let table = code_point_frequencies("hello world");
    assert_eq!(table.total, 11);
    assert_eq!(
        table.entries,
        vec![(' ', 1), ('d', 1), ('e', 1), ('h', 1), ('l', 3), ('o', 2), ('r', 1), ('w', 1)]
    );
}

#[test]
fn total_counts_code_points_not_bytes() {
    let text = "i ❤ rust";
    assert_eq!(text.len(), 10);
    assert_eq!(code_point_frequencies(text).total, 8);
    assert_eq!("ßℝ💣".len(), 9);
    assert_eq!(code_point_frequencies("ßℝ💣").total, 3);
}

#[test]
fn non_ascii_entries_come_first_in_ascending_order() {
    assert_eq!(entries_of("💣ℝß"), vec![('ß', 1), ('ℝ', 1), ('💣', 1)]);
    assert_eq!(
        entries_of("i ❤ rust"),
        vec![('❤', 1), (' ', 2), ('i', 1), ('r', 1), ('s', 1), ('t', 1), ('u', 1)]
    );
    assert_eq!(
        entries_of("hello world💣"),
        vec![
            ('💣', 1),
            (' ', 1),
            ('d', 1),
            ('e', 1),
            ('h', 1),
            ('l', 3),
            ('o', 2),
            ('r', 1),
            ('w', 1)
        ]
    );
}

#[test]
fn boundary_between_the_two_parts_is_at_128() {
    assert_eq!(
        entries_of("\u{80}\u{7f}a\u{80}"),
        vec![('\u{80}', 2), ('a', 1), ('\u{7f}', 1)]
    );
    assert_eq!(entries_of("\0\0"), vec![('\0', 2)]);
    assert_eq!(entries_of("\u{10FFFF}\u{E000}\u{D7FF}"), vec![
        ('\u{D7FF}', 1),
        ('\u{E000}', 1),
        ('\u{10FFFF}', 1)
    ]);
}

#[test]
fn control_characters_are_counted() {
    let table = code_point_frequencies("\n\t\n\r");
    assert_eq!(table.total, 4);
    assert_eq!(table.entries, vec![('\t', 1), ('\n', 2), ('\r', 1)]);
}

#[test]
fn repeated_non_ascii_code_points_accumulate() {
    let table = code_point_frequencies("💣a💣ß💣ß");
    assert_eq!(table.total, 6);
    assert_eq!(table.entries, vec![('ß', 2), ('💣', 3), ('a', 1)]);
}

#[test]
fn table_ignores_order() {
    let a = code_point_frequencies("hello world💣");
    let b = code_point_frequencies("💣dlrow olleh");
    assert_eq!(a.total, b.total);
    assert_eq!(a.entries, b.entries);
}

#[test]
fn repeating_the_text_doubles_every_count() {
    let text = "hello ❤ world";
    let once = code_point_frequencies(text);
    let twice = code_point_frequencies(&format!("{}{}", text, text));
    assert_eq!(twice.total, 2 * once.total);
    assert_eq!(twice.entries.len(), once.entries.len());
    for (e2, e1) in twice.entries.iter().zip(once.entries.iter()) {
        assert_eq!(e2.0, e1.0);
        assert_eq!(e2.1, 2 * e1.1);
    }
}

#[test]
fn counts_are_positive_and_sum_to_the_total() {
    for text in ["", "a", "hello world", "i ❤ rust", "ßℝ💣ßℝ", "\0\u{7f}\u{80}"] {
        let table = code_point_frequencies(text);
        let mut sum: usize = 0;
        for e in table.entries.iter() {
            assert!(e.1 >= 1);
            assert!(e.1 <= table.total);
            assert_eq!(e.1, text.chars().filter(|c| *c == e.0).count());
            sum += e.1;
        }
        assert_eq!(sum, table.total);
        assert_eq!(table.total, text.chars().count());
    }
}
