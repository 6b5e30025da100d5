use beginner_tools::words::{analyse, decimal_text, format_row, is_whitespace, split_words};

fn count_of(table: &[(String, u64)], w: &str) -> Option<u64> {
    table.iter().find(|(k, _)| k == w).map(|(_, c)| *c)
}

#[test]
fn splits_on_any_whitespace() {
    let w = split_words("  Hello   world\tfoo\nbar\u{3000}baz ");
    assert_eq!(w, vec!["Hello", "world", "foo", "bar", "baz"]);
    assert!(split_words("").is_empty());
    assert!(split_words(" \t\n ").is_empty());
}

#[test]
fn counts_lowercased_words() {
    let t = analyse("the cat The dog THE cat".to_string());
    assert_eq!(t.len(), 3);
    assert_eq!(t[0], ("the".to_string(), 3));
    assert_eq!(t[1], ("cat".to_string(), 2));
    assert_eq!(t[2], ("dog".to_string(), 1));
}

#[test]
fn lowercases_beyond_ascii() {
    let t = analyse("ÉCOLE école Straße STRASSE".to_string());
    assert_eq!(count_of(&t, "école"), Some(2));
    assert_eq!(count_of(&t, "straße"), Some(1));
    assert_eq!(count_of(&t, "strasse"), Some(1));
}

#[test]
fn counts_add_up_to_the_number_of_words() {
    let texts = ["a b a c b a", "  one  ", "", "x\ty\nz x", "Aa aA AA aa b"];
    for text in texts {
        let t = analyse(text.to_string());
        let total: u64 = t.iter().map(|(_, c)| *c).sum();
        assert_eq!(total as usize, text.split_whitespace().count());
    }
}

#[test]
fn ordered_by_decreasing_count() {
    let t = analyse("d c b a b c d c d d".to_string());
    let counts: Vec<u64> = t.iter().map(|(_, c)| *c).collect();
    assert_eq!(counts, vec![4, 3, 2, 1]);
    assert_eq!(t[0].0, "d");
    assert_eq!(t[3].0, "a");
}

#[test]
fn empty_text_has_no_words() {
    assert!(analyse(String::new()).is_empty());
    assert!(analyse("   ".to_string()).is_empty());
}

#[test]
fn row_is_padded_with_dots() {
    let row = format_row("the", 3);
    assert_eq!(row, format!("the{}{}3", ".".repeat(17), ".".repeat(19)));
    assert_eq!(row, format!("{:.<20}{:.>20}", "the", 3));
    assert_eq!(format_row("word", 12345), format!("{:.<20}{:.>20}", "word", 12345));
}

#[test]
fn long_word_is_not_cut() {
    let w = "abcdefghijklmnopqrstuvwxyz";
    assert_eq!(format_row(w, 0), format!("{:.<20}{:.>20}", w, 0));
    assert_eq!(format_row("é", u64::MAX), format!("{:.<20}{:.>20}", "é", u64::MAX));
}

#[test]
fn whitespace_matches_std() {
    for u in 0u32..0x3100 {
        if let Some(c) = char::from_u32(u) {
            assert_eq!(is_whitespace(c), c.is_whitespace(), "{:x}", u);
        }
    }
}

#[test]
fn decimal_digits() {
    assert_eq!(decimal_text(0), "0");
    assert_eq!(decimal_text(7), "7");
    assert_eq!(decimal_text(10), "10");
    assert_eq!(decimal_text(90210), "90210");
    assert_eq!(decimal_text(u64::MAX), u64::MAX.to_string());
}
