use beginner_tools::notes::{
    action_from_number, execute, notes_from_fields, parse_i32, trim, normalize_title, parse_action, read_notes, Action, ChoiceError,
    Note, Notes, NotesFileError, Outcome,
};

fn note(title: &str, date: &str, body: &str) -> Note {
    Note { title: title.to_string(), date: date.to_string(), body: body.to_string() }
}

fn tuples(n: &Notes) -> Vec<(String, String, String)> {
    let mut v: Vec<(String, String, String)> =
        n.notes().into_iter().map(|x| (x.title, x.body, x.date)).collect();
    v.sort();
    v
}

#[test]
fn default_note_is_untitled() {
    let n = Note::default();
    assert_eq!(n.title, "Untitled");
    assert_eq!(n.date, "");
    assert_eq!(n.body, "");
}

#[test]
fn titles_are_trimmed_and_uppercased() {
    assert_eq!(normalize_title("  shopping list \n"), "SHOPPING LIST");
    assert_eq!(normalize_title("straße"), "STRASSE");
    assert_eq!(normalize_title("   "), "");
}

#[test]
fn menu_numbers() {
    assert_eq!(action_from_number(1), Some(Action::Create));
    assert_eq!(action_from_number(2), Some(Action::Display));
    assert_eq!(action_from_number(3), Some(Action::Update));
    assert_eq!(action_from_number(4), Some(Action::Delete));
    assert_eq!(action_from_number(5), Some(Action::Quit));
    assert_eq!(action_from_number(0), None);
    assert_eq!(action_from_number(6), None);
    assert_eq!(action_from_number(-1), None);
}

#[test]
fn parses_menu_lines() {
    assert_eq!(parse_action("3\n"), Ok(Action::Update));
    assert_eq!(parse_action("  +5 "), Ok(Action::Quit));
    assert_eq!(parse_action("0"), Err(ChoiceError::OutOfRange));
    assert_eq!(parse_action("-2"), Err(ChoiceError::OutOfRange));
    assert_eq!(parse_action("abc"), Err(ChoiceError::NotANumber));
    assert_eq!(parse_action(""), Err(ChoiceError::NotANumber));
    assert_eq!(parse_action("1 2"), Err(ChoiceError::NotANumber));
    assert_eq!(parse_action("99999999999"), Err(ChoiceError::NotANumber));
}

#[test]
fn insert_replaces_a_note_of_the_same_title() {
    let mut n = Notes::new();
    assert!(!n.insert(note("A", "d1", "first")));
    assert!(n.insert(note("A", "d2", "second")));
    assert_eq!(n.len(), 1);
    assert_eq!(tuples(&n), vec![("A".to_string(), "second".to_string(), "d2".to_string())]);
}

#[test]
fn remove_reports_whether_there_was_a_note() {
    let mut n = Notes::new();
    n.insert(note("A", "d", "x"));
    n.insert(note("B", "d", "y"));
    assert!(n.remove("A"));
    assert!(!n.remove("A"));
    assert!(!n.contains("A"));
    assert!(n.contains("B"));
    assert_eq!(n.len(), 1);
}

#[test]
fn apply_reports_each_outcome() {
    let mut n = Notes::new();
    assert_eq!(n.apply(Action::Create, note("A", "d", "x")), Outcome::Created);
    assert_eq!(n.apply(Action::Create, note("A", "d", "y")), Outcome::Overwritten);
    assert_eq!(n.apply(Action::Update, note("A", "e", "z")), Outcome::Updated);
    assert_eq!(tuples(&n), vec![("A".to_string(), "z".to_string(), "e".to_string())]);
    assert_eq!(n.apply(Action::Display, Note::default()), Outcome::Unchanged);
    assert_eq!(n.apply(Action::Delete, note("A", "", "")), Outcome::Deleted);
    assert_eq!(n.len(), 0);
    assert_eq!(n.apply(Action::Quit, Note::default()), Outcome::Finished);
    assert_eq!(n.len(), 0);
}

#[test]
fn create_then_delete_leaves_no_note() {
    let mut n = Notes::new();
    n.insert(note("OTHER", "d", "kept"));
    let (a, created) = execute(Action::Create, &n, " groceries\n", " milk \n").unwrap();
    assert_eq!(a, Action::Create);
    assert_eq!(created.title, "GROCERIES");
    assert_eq!(created.body, "milk");
    assert!(!created.date.is_empty());
    n.apply(a, created);
    assert!(n.contains("GROCERIES"));
    let (a, deleted) = execute(Action::Delete, &n, "Groceries", "").unwrap();
    assert_eq!(a, Action::Delete);
    assert_eq!(deleted.title, "GROCERIES");
    assert_eq!(deleted.body, "");
    n.apply(a, deleted);
    assert!(!n.contains("GROCERIES"));
    assert!(n.contains("OTHER"));
}

#[test]
fn execute_update_needs_an_existing_note() {
    let mut n = Notes::new();
    assert!(execute(Action::Update, &n, "missing", "text").is_none());
    n.insert(note("TODO", "d", "old"));
    let (a, u) = execute(Action::Update, &n, " todo ", " new text ").unwrap();
    assert_eq!(a, Action::Update);
    assert_eq!(u.title, "TODO");
    assert_eq!(u.body, "new text");
}

#[test]
fn execute_display_and_quit() {
    let n = Notes::new();
    assert!(execute(Action::Display, &n, "", "").is_none());
    let (a, q) = execute(Action::Quit, &n, "", "").unwrap();
    assert_eq!(a, Action::Quit);
    assert_eq!(q.title, "Untitled");
    assert_eq!(q.body, "");
    assert_eq!(q.date, "");
}

#[test]
fn from_notes_keeps_the_last_of_a_title() {
    let n = Notes::from_notes(vec![note("A", "1", "x"), note("B", "2", "y"), note("A", "3", "z")]);
    assert_eq!(n.len(), 2);
    assert_eq!(
        tuples(&n),
        vec![
            ("A".to_string(), "z".to_string(), "3".to_string()),
            ("B".to_string(), "y".to_string(), "2".to_string()),
        ]
    );
}

#[test]
fn written_notes_read_back_the_same() {
    let mut n = Notes::new();
    n.insert(note("FIRST", "19 Oct 2026", "line one"));
    n.insert(note("SECOND \"Q\"", "20 Oct 2026", "tab\there, é"));
    n.insert(note("", "", ""));
    let text = n.write_notes();
    let back = read_notes(&text).unwrap();
    assert_eq!(tuples(&back), tuples(&n));
    let empty = Notes::new();
    let back = read_notes(&empty.write_notes()).unwrap();
    assert_eq!(back.len(), 0);
}

#[test]
fn written_text_has_the_notes_array() {
    let mut n = Notes::new();
    n.insert(note("T", "D", "B"));
    assert_eq!(n.write_notes(), "{\"notes\":[{\"body\":\"B\",\"date\":\"D\",\"title\":\"T\"}]}");
}

#[test]
fn reads_a_notes_file() {
    let text = "{\"notes\": [{\"title\": \"A\", \"body\": \"x\", \"date\": \"d\"}]}";
    let n = read_notes(text).unwrap();
    assert_eq!(tuples(&n), vec![("A".to_string(), "x".to_string(), "d".to_string())]);
}

#[test]
fn refuses_bad_notes_files() {
    assert_eq!(read_notes("").err(), Some(NotesFileError::Empty));
    assert_eq!(read_notes("{").err(), Some(NotesFileError::InvalidJson));
    assert_eq!(read_notes("{\"other\": 1}").err(), Some(NotesFileError::MissingNotes));
    assert_eq!(read_notes("{\"notes\": 3}").err(), Some(NotesFileError::MissingNotes));
    assert_eq!(
        read_notes("{\"notes\": [{\"title\": \"A\", \"body\": \"x\"}]}").err(),
        Some(NotesFileError::MissingField)
    );
    assert_eq!(
        read_notes("{\"notes\": [{\"title\": 1, \"body\": \"x\", \"date\": \"d\"}]}").err(),
        Some(NotesFileError::MissingField)
    );
}

#[test]
fn records_need_all_three_fields() {
    let s = |x: &str| Some(x.to_string());
    let ok = notes_from_fields(vec![(s("A"), s("x"), s("d")), (s("B"), s("y"), s("e"))]).unwrap();
    assert_eq!(
        tuples(&ok),
        vec![
            ("A".to_string(), "x".to_string(), "d".to_string()),
            ("B".to_string(), "y".to_string(), "e".to_string()),
        ]
    );
    assert_eq!(notes_from_fields(vec![]).unwrap().len(), 0);
    assert_eq!(
        notes_from_fields(vec![(s("A"), s("x"), s("d")), (s("B"), None, s("e"))]).err(),
        Some(NotesFileError::MissingField)
    );
    assert_eq!(notes_from_fields(vec![(None, s("x"), s("d"))]).err(), Some(NotesFileError::MissingField));
}

#[test]
fn no_notes_write_an_empty_array() {
    assert_eq!(Notes::new().write_notes(), "{\"notes\":[]}");
}

#[test]
fn whitespace_only_text_is_no_json() {
    assert_eq!(read_notes("   ").err(), Some(NotesFileError::InvalidJson));
}

#[test]
fn trims_like_std() {
    for t in ["", "   ", "  a b  ", "\t\nx\u{3000}", "abc", " \u{85}é\u{2028}"] {
        assert_eq!(trim(t), t.trim());
    }
}

#[test]
fn parses_i32_like_std() {
    let cases = [
        "0", "7", "+7", "-7", "-", "+", "", "12a", " 1", "1 ", "2147483647", "2147483648",
        "-2147483648", "-2147483649", "+-1", "0004", "99999999999999999999", "١٢",
    ];
    for c in cases {
        assert_eq!(parse_i32(c), c.parse::<i32>().ok(), "{:?}", c);
    }
}
