use crate::words::{is_white, is_whitespace};
use vstd::prelude::*;

verus! {

/// A note: its title, the date it was written and its text.
pub struct Note {
    pub title: String,
    pub date: String,
    pub body: String,
}

impl View for Note {
    type V = (Seq<char>, Seq<char>, Seq<char>);

    open spec fn view(&self) -> (Seq<char>, Seq<char>, Seq<char>) {
        (self.title@, self.date@, self.body@)
    }
}

impl Note {
    /// An untitled note with no date and no text.
    pub fn default() -> (r: Note)
        ensures
            r.title@ == seq!['U', 'n', 't', 'i', 't', 'l', 'e', 'd'],
            r.date@.len() == 0,
            r.body@.len() == 0,
    {
        proof {
            reveal_strlit("Untitled");
        }
        let r = Note { title: "Untitled".to_owned(), date: String::new(), body: String::new() };
        assert(r.title@ =~= seq!['U', 'n', 't', 'i', 't', 'l', 'e', 'd']);
        r
    }

    /// A copy of the note.
    pub fn duplicate(&self) -> (r: Note)
        ensures
            r@ == self@,
    {
        Note { title: self.title.clone(), date: self.date.clone(), body: self.body.clone() }
    }
}

/// A command of the notes menu.
#[derive(PartialEq, Eq, Structural, Clone, Copy, Debug)]
pub enum Action {
    Create,
    Display,
    Update,
    Delete,
    Quit,
}

/// What applying an action to the notes did.
#[derive(PartialEq, Eq, Structural, Clone, Copy, Debug)]
pub enum Outcome {
    /// A note with a new title was added.
    Created,
    /// A created note replaced one of the same title.
    Overwritten,
    /// A note was replaced by its new version.
    Updated,
    /// The note of the title is gone.
    Deleted,
    /// Nothing changed.
    Unchanged,
    /// The session ends and the notes are to be saved.
    Finished,
}

/// The notes `m` after `action` was applied with the note `n`.
pub open spec fn applied(
    m: Map<Seq<char>, (Seq<char>, Seq<char>, Seq<char>)>,
    action: Action,
    n: (Seq<char>, Seq<char>, Seq<char>),
) -> Map<Seq<char>, (Seq<char>, Seq<char>, Seq<char>)> {
    match action {
        Action::Create | Action::Update => m.insert(n.0, n),
        Action::Delete => m.remove(n.0),
        Action::Display | Action::Quit => m,
    }
}

/// The titles of the notes in `s` are pairwise different.
pub open spec fn titles_distinct(s: Seq<Note>) -> bool {
    forall|i: int, j: int| 0 <= i < j < s.len() ==> s[i].title@ != s[j].title@
}

/// The notes of `s` keyed by title; a later note replaces an earlier one of
/// the same title.
pub open spec fn notes_map(s: Seq<Note>) -> Map<Seq<char>, (Seq<char>, Seq<char>, Seq<char>)>
    decreases s.len(),
{
    if s.len() == 0 {
        Map::empty()
    } else {
        notes_map(s.drop_last()).insert(s.last().title@, s.last()@)
    }
}

proof fn lemma_notes_map_keys(s: Seq<Note>, k: Seq<char>)
    ensures
        notes_map(s).contains_key(k) <==> exists|i: int| 0 <= i < s.len() && s[i].title@ == k,
    decreases s.len(),
{
    if s.len() > 0 {
        lemma_notes_map_keys(s.drop_last(), k);
        if notes_map(s.drop_last()).contains_key(k) {
            let i = choose|i: int| 0 <= i < s.len() - 1 && s.drop_last()[i].title@ == k;
            assert(s[i].title@ == k);
        }
        if exists|i: int| 0 <= i < s.len() && s[i].title@ == k {
            let i = choose|i: int| 0 <= i < s.len() && s[i].title@ == k;
            if i < s.len() - 1 {
                assert(s.drop_last()[i].title@ == k);
            }
        }
    }
}

proof fn lemma_notes_map_remove(s: Seq<Note>, i: int)
    requires
        0 <= i < s.len(),
        titles_distinct(s),
    ensures
        notes_map(s.remove(i)) == notes_map(s).remove(s[i].title@),
    decreases s.len(),
{
    let k = s[i].title@;
    let d = s.drop_last();
    if i == s.len() - 1 {
        assert(s.remove(i) =~= d);
        if notes_map(d).contains_key(k) {
            lemma_notes_map_keys(d, k);
            let j = choose|j: int| 0 <= j < d.len() && d[j].title@ == k;
            assert(s[j].title@ == k);
        }
        assert(notes_map(d) =~= notes_map(d).insert(k, s.last()@).remove(k));
    } else {
        assert(s.remove(i).drop_last() =~= d.remove(i));
        assert(s.remove(i).last() == s.last());
        assert(d[i] == s[i]);
        lemma_notes_map_remove(d, i);
        assert(s.last().title@ != k);
        assert(notes_map(s.remove(i)) =~= notes_map(s).remove(k));
    }
}

proof fn lemma_notes_map_replace(s: Seq<Note>, i: int, n: Note)
    requires
        0 <= i < s.len(),
        titles_distinct(s),
        n.title@ == s[i].title@,
    ensures
        notes_map(s.update(i, n)) == notes_map(s).insert(n.title@, n@),
    decreases s.len(),
{
    let k = n.title@;
    let d = s.drop_last();
    if i == s.len() - 1 {
        assert(s.update(i, n).drop_last() =~= d);
        assert(notes_map(s.update(i, n)) =~= notes_map(s).insert(k, n@));
    } else {
        assert(s.update(i, n).drop_last() =~= d.update(i, n));
        assert(s.update(i, n).last() == s.last());
        assert(d[i] == s[i]);
        lemma_notes_map_replace(d, i, n);
        assert(s.last().title@ != k);
        assert(notes_map(s.update(i, n)) =~= notes_map(s).insert(k, n@));
    }
}

/// A collection of notes with pairwise different titles.
pub struct Notes {
    entries: Vec<Note>,
}

impl View for Notes {
    type V = Map<Seq<char>, (Seq<char>, Seq<char>, Seq<char>)>;

    closed spec fn view(&self) -> Map<Seq<char>, (Seq<char>, Seq<char>, Seq<char>)> {
        notes_map(self.entries@)
    }
}

impl Notes {
    /// The titles of the stored notes are pairwise different.
    pub closed spec fn wf(&self) -> bool {
        titles_distinct(self.entries@)
    }

    /// The notes in the order they are stored.
    pub closed spec fn list(&self) -> Seq<Note> {
        self.entries@
    }

    /// No notes.
    pub fn new() -> (r: Notes)
        ensures
            r.wf(),
            r@ == Map::<Seq<char>, (Seq<char>, Seq<char>, Seq<char>)>::empty(),
    {
        Notes { entries: Vec::new() }
    }

    /// The number of notes.
    pub fn len(&self) -> (r: usize)
        requires
            self.wf(),
        ensures
            r == self@.len(),
    {
        proof {
            lemma_notes_map_len(self.entries@);
        }
        self.entries.len()
    }

    /// Whether a note has the title `title`.
    pub fn contains(&self, title: &str) -> (r: bool)
        requires
            self.wf(),
        ensures
            r == self@.contains_key(title@),
    {
        let t = title.to_owned();
        match self.find(&t) {
            Some(i) => {
                proof {
                    lemma_notes_map_keys(self.entries@, title@);
                }
                true
            },
            None => false,
        }
    }

    /// Stores `note` under its title, replacing a note of the same title;
    /// returns whether there was one.
    pub fn insert(&mut self, note: Note) -> (existed: bool)
        requires
            old(self).wf(),
        ensures
            final(self).wf(),
            final(self)@ == old(self)@.insert(note.title@, note@),
            existed == old(self)@.contains_key(note.title@),
    {
        proof {
            lemma_notes_map_keys(self.entries@, note.title@);
        }
        match self.find(&note.title) {
            Some(i) => {
                proof {
                    lemma_notes_map_replace(self.entries@, i as int, note);
                }
                self.entries.set(i, note);
                true
            },
            None => {
                let ghost before = self.entries@;
                self.entries.push(note);
                assert(self.entries@.drop_last() =~= before);
                false
            },
        }
    }

    /// Removes the note of the title `title`; returns whether there was one.
    pub fn remove(&mut self, title: &str) -> (existed: bool)
        requires
            old(self).wf(),
        ensures
            final(self).wf(),
            final(self)@ == old(self)@.remove(title@),
            existed == old(self)@.contains_key(title@),
    {
        let t = title.to_owned();
        proof {
            lemma_notes_map_keys(self.entries@, title@);
        }
        match self.find(&t) {
            Some(i) => {
                proof {
                    lemma_notes_map_remove(self.entries@, i as int);
                }
                self.entries.remove(i);
                true
            },
            None => {
                assert(self@ =~= self@.remove(title@));
                false
            },
        }
    }

    /// Applies a menu action with the note that was prepared for it:
    /// `Create` and `Update` store the note under its title, `Delete` removes
    /// the note of its title, `Display` and `Quit` change nothing.
    pub fn apply(&mut self, action: Action, note: Note) -> (r: Outcome)
        requires
            old(self).wf(),
        ensures
            final(self).wf(),
            final(self)@ == applied(old(self)@, action, note@),
            r == match action {
                Action::Create => if old(self)@.contains_key(note.title@) {
                    Outcome::Overwritten
                } else {
                    Outcome::Created
                },
                Action::Update => Outcome::Updated,
                Action::Delete => Outcome::Deleted,
                Action::Display => Outcome::Unchanged,
                Action::Quit => Outcome::Finished,
            },
    {
        match action {
            Action::Create => {
                if self.insert(note) {
                    Outcome::Overwritten
                } else {
                    Outcome::Created
                }
            },
            Action::Update => {
                let ghost before = self@;
                self.remove(note.title.as_str());
                self.insert(note);
                assert(self@ =~= before.insert(note.title@, note@));
                Outcome::Updated
            },
            Action::Delete => {
                self.remove(note.title.as_str());
                Outcome::Deleted
            },
            Action::Display => Outcome::Unchanged,
            Action::Quit => Outcome::Finished,
        }
    }

    /// A copy of the stored notes, one per title.
    pub fn notes(&self) -> (r: Vec<Note>)
        requires
            self.wf(),
        ensures
            r@.len() == self.list().len(),
            forall|i: int| 0 <= i < r@.len() ==> #[trigger] r@[i]@ == self.list()[i]@,
            titles_distinct(r@),
            notes_map(r@) == self@,
    {
        let mut r: Vec<Note> = Vec::new();
        let mut i: usize = 0;
        while i < self.entries.len()
            invariant
                i <= self.entries@.len(),
                r@.len() == i,
                forall|j: int| 0 <= j < i ==> #[trigger] r@[j]@ == self.entries@[j]@,
            decreases self.entries@.len() - i,
        {
            r.push(self.entries[i].duplicate());
            i = i + 1;
        }
        proof {
            lemma_notes_map_same_views(r@, self.entries@);
        }
        r
    }

    /// The notes of `list` keyed by title; a later note replaces an earlier
    /// one of the same title.
    pub fn from_notes(list: Vec<Note>) -> (r: Notes)
        ensures
            r.wf(),
            r@ == notes_map(list@),
    {
        let mut r = Notes::new();
        let mut i: usize = 0;
        while i < list.len()
            invariant
                i <= list@.len(),
                r.wf(),
                r@ == notes_map(list@.take(i as int)),
            decreases list@.len() - i,
        {
            assert(list@.take(i as int + 1).drop_last() =~= list@.take(i as int));
            r.insert(list[i].duplicate());
            i = i + 1;
        }
        assert(list@.take(i as int) =~= list@);
        r
    }

    fn find(&self, title: &String) -> (r: Option<usize>)
        requires
            self.wf(),
        ensures
            r matches Some(i) ==> i < self.entries@.len() && self.entries@[i as int].title@ == title@,
            r is None ==> !self@.contains_key(title@),
    {
        let mut i: usize = 0;
        while i < self.entries.len()
            invariant
                i <= self.entries@.len(),
                forall|j: int| 0 <= j < i ==> self.entries@[j].title@ != title@,
            decreases self.entries@.len() - i,
        {
            if self.entries[i].title == *title {
                return Some(i);
            }
            i = i + 1;
        }
        proof {
            lemma_notes_map_keys(self.entries@, title@);
        }
        None
    }
}

proof fn lemma_notes_map_len(s: Seq<Note>)
    requires
        titles_distinct(s),
    ensures
        notes_map(s).len() == s.len(),
        notes_map(s).dom().finite(),
    decreases s.len(),
{
    if s.len() > 0 {
        let d = s.drop_last();
        lemma_notes_map_len(d);
        lemma_notes_map_keys(d, s.last().title@);
        if notes_map(d).contains_key(s.last().title@) {
            let j = choose|j: int| 0 <= j < d.len() && d[j].title@ == s.last().title@;
            assert(s[j].title@ == s[s.len() - 1].title@);
        }
    }
}

proof fn lemma_notes_map_same_views(a: Seq<Note>, b: Seq<Note>)
    requires
        a.len() == b.len(),
        forall|j: int| 0 <= j < a.len() ==> #[trigger] a[j]@ == b[j]@,
    ensures
        notes_map(a) == notes_map(b),
        titles_distinct(b) ==> titles_distinct(a),
    decreases a.len(),
{
    if a.len() > 0 {
        lemma_notes_map_same_views(a.drop_last(), b.drop_last());
        assert(a.last()@ == b.last()@);
    }
    if titles_distinct(b) {
        assert forall|i: int, j: int| 0 <= i < j < a.len() implies a[i].title@ != a[j].title@ by {
            assert(a[i]@ == b[i]@ && a[j]@ == b[j]@);
        }
    }
}

/// Creating a note and then deleting a note of the same title leaves no note
/// of that title, whatever notes there were before.
pub proof fn lemma_create_then_delete(
    m: Map<Seq<char>, (Seq<char>, Seq<char>, Seq<char>)>,
    created: (Seq<char>, Seq<char>, Seq<char>),
    deleted: (Seq<char>, Seq<char>, Seq<char>),
)
    requires
        created.0 == deleted.0,
    ensures
        !applied(applied(m, Action::Create, created), Action::Delete, deleted).contains_key(
            created.0,
        ),
{
}

proof fn lemma_notes_map_titles(s: Seq<Note>)
    ensures
        forall|k: Seq<char>| #[trigger] notes_map(s).contains_key(k) ==> notes_map(s)[k].0 == k,
    decreases s.len(),
{
    if s.len() > 0 {
        lemma_notes_map_titles(s.drop_last());
        assert(s.last()@.0 == s.last().title@);
        assert forall|k: Seq<char>| #[trigger] notes_map(s).contains_key(k) implies notes_map(s)[k].0 == k by {
            if k != s.last().title@ {
                assert(notes_map(s.drop_last()).contains_key(k));
            }
        }
    }
}

/// Each note is kept under its own title.
pub proof fn lemma_keyed_by_title(n: Notes)
    ensures
        forall|k: Seq<char>| #[trigger] n@.contains_key(k) ==> n@[k].0 == k,
{
    lemma_notes_map_titles(n.entries@);
}

/// `s` without its leading whitespace.
pub open spec fn trim_start(s: Seq<char>) -> Seq<char>
    decreases s.len(),
{
    if s.len() > 0 && is_white(s[0]) {
        trim_start(s.drop_first())
    } else {
        s
    }
}

/// `s` without its trailing whitespace.
pub open spec fn trim_end(s: Seq<char>) -> Seq<char>
    decreases s.len(),
{
    if s.len() > 0 && is_white(s.last()) {
        trim_end(s.drop_last())
    } else {
        s
    }
}

/// `s` without its leading and trailing whitespace.
pub open spec fn trim_white(s: Seq<char>) -> Seq<char> {
    trim_start(trim_end(s))
}

/// `s` without its leading and trailing whitespace.
pub fn trim(s: &str) -> (r: String)
    ensures
        r@ == trim_white(s@),
{
    let n = s.unicode_len();
    let mut e: usize = n;
    assert(s@.take(n as int) =~= s@);
    while e > 0 && is_whitespace(s.get_char(e - 1))
        invariant
            e <= n,
            n == s@.len(),
            trim_end(s@) == trim_end(s@.take(e as int)),
        decreases e,
    {
        assert(s@.take(e as int).drop_last() =~= s@.take(e as int - 1));
        e = e - 1;
    }
    assert(trim_end(s@.take(e as int)) == s@.take(e as int));
    let mut b: usize = 0;
    assert(s@.subrange(0, e as int) =~= s@.take(e as int));
    while b < e && is_whitespace(s.get_char(b))
        invariant
            b <= e,
            e <= n,
            n == s@.len(),
            trim_start(s@.take(e as int)) == trim_start(s@.subrange(b as int, e as int)),
        decreases e - b,
    {
        assert(s@.subrange(b as int, e as int).drop_first() =~= s@.subrange(b as int + 1, e as int));
        b = b + 1;
    }
    assert(trim_start(s@.subrange(b as int, e as int)) == s@.subrange(b as int, e as int));
    s.substring_char(b, e).to_owned()
}

/// The uppercase form of a string, as std's Unicode case mapping gives it.
pub uninterp spec fn upper_of(s: Seq<char>) -> Seq<char>;

/// Relies on `str::to_uppercase`: the result depends on the characters alone,
/// and an empty string stays empty.
#[verifier::external_body]
fn uppercase(s: &str) -> (r: String)
    ensures
        r@ == upper_of(s@),
        s@.len() == 0 ==> r@.len() == 0,
{
    s.to_uppercase()
}

/// Relies on `chrono::Local::now` and `format`: today's date in the local time
/// zone, written as day, abbreviated month and year, never empty.
#[verifier::external_body]
fn today() -> (r: String)
    ensures
        r@.len() > 0,
{
    chrono::Local::now().format("%d %b %Y").to_string()
}

/// Relies on `chrono::Local::now` and its `Display`: the local date and time,
/// never empty.
#[verifier::external_body]
fn now_text() -> (r: String)
    ensures
        r@.len() > 0,
{
    chrono::Local::now().to_string()
}

/// The title under which a note entered as `line` is kept: the line without
/// surrounding whitespace, in uppercase.
pub fn normalize_title(line: &str) -> (r: String)
    ensures
        r@ == upper_of(trim_white(line@)),
{
    let t = trim(line);
    uppercase(t.as_str())
}

/// Prepares the note that `action` works on, from the lines the user entered
/// for the title and the text. `Display` needs no note; `Update` needs one
/// only when a note of that title exists. The date is the current one, and
/// never empty.
pub fn execute(action: Action, notes: &Notes, title_line: &str, body_line: &str) -> (r: Option<(Action, Note)>)
    requires
        notes.wf(),
    ensures
        match action {
            Action::Create => r matches Some((a, n)) && a == Action::Create
                && n.title@ == upper_of(trim_white(title_line@))
                && n.body@ == trim_white(body_line@) && n.date@.len() > 0,
            Action::Display => r is None,
            Action::Update => if notes@.contains_key(upper_of(trim_white(title_line@))) {
                r matches Some((a, n)) && a == Action::Update
                    && n.title@ == upper_of(trim_white(title_line@))
                    && n.body@ == trim_white(body_line@) && n.date@.len() > 0
            } else {
                r is None
            },
            Action::Delete => r matches Some((a, n)) && a == Action::Delete
                && n.title@ == upper_of(trim_white(title_line@))
                && n.body@.len() == 0 && n.date@.len() > 0,
            Action::Quit => r matches Some((a, n)) && a == Action::Quit
                && n.title@ == seq!['U', 'n', 't', 'i', 't', 'l', 'e', 'd']
                && n.date@.len() == 0 && n.body@.len() == 0,
        },
{
    match action {
        Action::Create => {
            let title = normalize_title(title_line);
            let body = trim(body_line);
            Some((Action::Create, Note { title, date: today(), body }))
        },
        Action::Display => None,
        Action::Update => {
            let title = normalize_title(title_line);
            if notes.contains(title.as_str()) {
                let body = trim(body_line);
                Some((Action::Update, Note { title, date: now_text(), body }))
            } else {
                None
            }
        },
        Action::Delete => {
            let title = normalize_title(title_line);
            Some((Action::Delete, Note { title, date: now_text(), body: String::new() }))
        },
        Action::Quit => Some((Action::Quit, Note::default())),
    }
}

/// Why a menu choice was refused.
#[derive(PartialEq, Eq, Structural, Clone, Copy, Debug)]
pub enum ChoiceError {
    /// The line is not a whole number.
    NotANumber,
    /// The number names no menu entry.
    OutOfRange,
}

/// The menu action numbered `n`, from 1 to 5.
pub open spec fn action_of(n: int) -> Option<Action> {
    if n == 1 {
        Some(Action::Create)
    } else if n == 2 {
        Some(Action::Display)
    } else if n == 3 {
        Some(Action::Update)
    } else if n == 4 {
        Some(Action::Delete)
    } else if n == 5 {
        Some(Action::Quit)
    } else {
        None
    }
}

/// The menu action numbered `n`, if there is one.
pub fn action_from_number(n: i32) -> (r: Option<Action>)
    ensures
        r == action_of(n as int),
{
    match n {
        1 => Some(Action::Create),
        2 => Some(Action::Display),
        3 => Some(Action::Update),
        4 => Some(Action::Delete),
        5 => Some(Action::Quit),
        _ => None,
    }
}

/// Whether `c` is an ASCII decimal digit.
pub open spec fn is_digit(c: char) -> bool {
    '0' <= c && c <= '9'
}

/// The value of a nonempty run of decimal digits.
pub open spec fn digits_value(s: Seq<char>) -> int
    decreases s.len(),
{
    if s.len() == 0 {
        0
    } else {
        10 * digits_value(s.drop_last()) + (s.last() as int - '0' as int)
    }
}

/// Whether `s` is one or more decimal digits.
pub open spec fn all_digits(s: Seq<char>) -> bool {
    s.len() > 0 && forall|i: int| 0 <= i < s.len() ==> is_digit(#[trigger] s[i])
}

/// The integer that `s` writes: an optional sign followed by decimal digits.
pub open spec fn int_literal(s: Seq<char>) -> Option<int> {
    if s.len() > 0 && (s[0] == '+' || s[0] == '-') {
        if all_digits(s.drop_first()) {
            if s[0] == '-' {
                Some(-digits_value(s.drop_first()))
            } else {
                Some(digits_value(s.drop_first()))
            }
        } else {
            None
        }
    } else if all_digits(s) {
        Some(digits_value(s))
    } else {
        None
    }
}

/// What parsing `s` as an `i32` gives: the integer it writes, when that fits.
pub open spec fn i32_literal(s: Seq<char>) -> Option<int> {
    match int_literal(s) {
        Some(v) => if i32::MIN <= v <= i32::MAX {
            Some(v)
        } else {
            None
        },
        None => None,
    }
}

proof fn lemma_digits_prefix(s: Seq<char>, k: int)
    requires
        0 <= k <= s.len(),
        forall|i: int| 0 <= i < s.len() ==> is_digit(#[trigger] s[i]),
    ensures
        digits_value(s) >= digits_value(s.take(k)),
        digits_value(s.take(k)) >= 0,
    decreases s.len(),
{
    if k == s.len() {
        assert(s.take(k) =~= s);
        if s.len() > 0 {
            lemma_digits_prefix(s.drop_last(), 0);
            lemma_digits_prefix(s.drop_last(), s.len() - 1);
            assert(s.drop_last().take(s.len() - 1) =~= s.drop_last());
        }
    } else {
        let d = s.drop_last();
        assert(d.take(k) =~= s.take(k));
        lemma_digits_prefix(d, k);
        lemma_digits_prefix(d, d.len() as int);
        assert(d.take(d.len() as int) =~= d);
        assert(is_digit(s[s.len() - 1]));
    }
}

/// The `i32` that `s` writes: an optional `+` or `-` and one or more decimal
/// digits, whose value fits in an `i32`; `None` for anything else.
pub fn parse_i32(s: &str) -> (r: Option<i32>)
    ensures
        r matches Some(n) ==> i32_literal(s@) == Some(n as int),
        r is None ==> i32_literal(s@) is None,
{
    let n = s.unicode_len();
    let mut start: usize = 0;
    let mut neg = false;
    if n > 0 {
        let c = s.get_char(0);
        if c == '+' || c == '-' {
            start = 1;
            neg = c == '-';
        }
    }
    let ghost rest = s@.subrange(start as int, n as int);
    assert(start == 1 ==> rest =~= s@.drop_first());
    assert(start == 0 ==> rest =~= s@);
    if start >= n {
        return None;
    }
    let mut v: u64 = 0;
    let mut i: usize = start;
    assert(rest.take(0) =~= Seq::<char>::empty());
    while i < n
        invariant
            start <= i <= n,
            n == s@.len(),
            rest == s@.subrange(start as int, n as int),
            v as int == digits_value(rest.take(i - start)),
            v <= 2147483648,
            forall|j: int| 0 <= j < i - start ==> is_digit(#[trigger] rest[j]),
            start == 1 ==> (s@[0] == '+' || s@[0] == '-') && rest == s@.drop_first(),
            start == 0 ==> !(s@.len() > 0 && (s@[0] == '+' || s@[0] == '-')) && rest == s@,
            neg == (start == 1 && s@[0] == '-'),
            start <= 1,
        decreases n - i,
    {
        let c = s.get_char(i);
        assert(rest[i - start] == c);
        if !('0' <= c && c <= '9') {
            assert(!is_digit(rest[i - start]));
            assert(!all_digits(rest));
            if start == 1 {
                assert(!all_digits(s@.drop_first()));
            } else {
                assert(!all_digits(s@));
            }
            assert(int_literal(s@) is None);
            return None;
        }
        let d = (c as u32 - '0' as u32) as u64;
        let nv = v * 10 + d;
        assert(rest.take(i - start + 1).drop_last() =~= rest.take(i - start));
        assert(rest.take(i - start + 1).last() == c);
        if nv > 2147483648 {
            proof {
                if all_digits(rest) {
                    lemma_digits_prefix(rest, i - start + 1);
                    assert(digits_value(rest) > 2147483648);
                    if start == 1 {
                        assert(all_digits(s@.drop_first()));
                    } else {
                        assert(all_digits(s@));
                    }
                    assert(int_literal(s@) is Some);
                    assert(int_literal(s@)->0 > i32::MAX || int_literal(s@)->0 < i32::MIN);
                }
            }
            return None;
        }
        v = nv;
        i = i + 1;
    }
    assert(rest.take(n - start) =~= rest);
    if neg {
        Some((0i64 - v as i64) as i32)
    } else if v <= 2147483647 {
        Some(v as i32)
    } else {
        None
    }
}

/// The menu action that the line `line` chooses: a number from 1 to 5,
/// surrounding whitespace aside.
pub fn parse_action(line: &str) -> (r: Result<Action, ChoiceError>)
    ensures
        match i32_literal(trim_white(line@)) {
            Some(v) => match action_of(v) {
                Some(a) => r == Ok::<Action, ChoiceError>(a),
                None => r == Err::<Action, ChoiceError>(ChoiceError::OutOfRange),
            },
            None => r == Err::<Action, ChoiceError>(ChoiceError::NotANumber),
        },
{
    let t = trim(line);
    match parse_i32(t.as_str()) {
        Some(n) => match action_from_number(n) {
            Some(a) => Ok(a),
            None => Err(ChoiceError::OutOfRange),
        },
        None => Err(ChoiceError::NotANumber),
    }
}

/// A JSON value of serde_json.
#[verifier::external_type_specification]
#[verifier::external_body]
pub struct ExValue(serde_json::Value);

/// What a JSON value holds, as far as a notes file is concerned: strings,
/// arrays and objects; numbers, booleans and null are all `Other`.
pub enum JsonTree {
    Str(Seq<char>),
    Array(Seq<JsonTree>),
    Object(Map<Seq<char>, JsonTree>),
    Other,
}

/// What the serde_json value `v` holds.
pub uninterp spec fn json_tree(v: serde_json::Value) -> JsonTree;

/// The value that serde_json reads from the text `s`, where `s` is a JSON
/// document.
pub uninterp spec fn json_parse(s: Seq<char>) -> Option<JsonTree>;

/// The compact JSON text that serde_json writes for a value holding `t`.
pub uninterp spec fn json_render(t: JsonTree) -> Seq<char>;

/// `t` is made of strings, arrays and finite objects only.
pub open spec fn text_tree(t: JsonTree) -> bool
    decreases t,
{
    match t {
        JsonTree::Str(_) => true,
        JsonTree::Array(items) => forall|i: int| 0 <= i < items.len() ==> text_tree(#[trigger] items[i]),
        JsonTree::Object(m) => m.dom().finite() && forall|k: Seq<char>| #[trigger] m.contains_key(k) ==> text_tree(m[k]),
        JsonTree::Other => false,
    }
}

/// `t` holds arrays and objects nested at most `d` deep.
pub open spec fn nested_within(t: JsonTree, d: nat) -> bool
    decreases t,
{
    match t {
        JsonTree::Array(items) => d > 0 && forall|i: int| 0 <= i < items.len() ==> nested_within(#[trigger] items[i], (d - 1) as nat),
        JsonTree::Object(m) => d > 0 && forall|k: Seq<char>| #[trigger] m.contains_key(k) ==> nested_within(m[k], (d - 1) as nat),
        _ => true,
    }
}

/// `t` is made of strings, arrays and finite objects, nested at most 127
/// deep: serde_json refuses to read deeper nesting.
pub open spec fn json_readable(t: JsonTree) -> bool {
    text_tree(t) && nested_within(t, 127)
}

/// The object that a list of members makes; the members' keys are distinct.
pub open spec fn object_of(fields: Seq<(Seq<char>, JsonTree)>) -> Map<Seq<char>, JsonTree>
    decreases fields.len(),
{
    if fields.len() == 0 {
        Map::empty()
    } else {
        object_of(fields.drop_last()).insert(fields.last().0, fields.last().1)
    }
}

/// Relies on `serde_json::from_str`: the value that `text` holds, `None` where
/// it is no JSON document; the text that serde_json writes for a value of
/// strings, arrays and objects, nested within its recursion limit of 127
/// arrays or objects, reads back as that value.
#[verifier::external_body]
fn parse_json(text: &str) -> (r: Option<serde_json::Value>)
    ensures
        r is None <==> json_parse(text@) is None,
        r is Some ==> json_parse(text@) == Some(json_tree(r->0)),
        r is Some || forall|t: JsonTree| !(json_readable(t) && text@ == #[trigger] json_render(t)),
        r is Some ==> forall|t: JsonTree| json_readable(t) && text@ == #[trigger] json_render(t) ==> json_tree(r->0) == t,
{
    serde_json::from_str::<serde_json::Value>(text).ok()
}

/// Relies on `serde_json::Value::get`: the member `key` of an object; `None`
/// for an object without it and for any other value.
#[verifier::external_body]
fn member(v: &serde_json::Value, key: &str) -> (r: Option<serde_json::Value>)
    ensures
        match json_tree(*v) {
            JsonTree::Object(m) => if m.contains_key(key@) {
                r matches Some(w) && json_tree(w) == m[key@]
            } else {
                r is None
            },
            _ => r is None,
        },
{
    v.get(key).cloned()
}

/// Relies on `serde_json::Value::as_array`: the items of an array; `None` for
/// any other value.
#[verifier::external_body]
fn array_items(v: &serde_json::Value) -> (r: Option<Vec<serde_json::Value>>)
    ensures
        match json_tree(*v) {
            JsonTree::Array(items) => r matches Some(vs) && vs@.len() == items.len() && forall|i: int|
                0 <= i < items.len() ==> json_tree(#[trigger] vs@[i]) == items[i],
            _ => r is None,
        },
{
    v.as_array().cloned()
}

/// Relies on `serde_json::Value::as_str`: the text of a JSON string; `None`
/// for any other value.
#[verifier::external_body]
fn string_of(v: &serde_json::Value) -> (r: Option<String>)
    ensures
        match json_tree(*v) {
            JsonTree::Str(s) => r matches Some(t) && t@ == s,
            _ => r is None,
        },
{
    v.as_str().map(str::to_string)
}

/// Relies on `serde_json::Value::String`: a JSON string of `s`.
#[verifier::external_body]
fn json_string(s: String) -> (r: serde_json::Value)
    ensures
        json_tree(r) == JsonTree::Str(s@),
{
    serde_json::Value::String(s)
}

/// Relies on `serde_json::Value::Array`: a JSON array of `items`.
#[verifier::external_body]
fn json_array(items: Vec<serde_json::Value>) -> (r: serde_json::Value)
    ensures
        json_tree(r) == JsonTree::Array(items@.map_values(|v: serde_json::Value| json_tree(v))),
{
    serde_json::Value::Array(items)
}

/// Relies on `serde_json::Map`'s `FromIterator` and `serde_json::Value::Object`:
/// a JSON object of `fields`, whose keys are distinct.
#[verifier::external_body]
fn json_object(fields: Vec<(String, serde_json::Value)>) -> (r: serde_json::Value)
    requires
        forall|i: int, j: int| 0 <= i < j < fields@.len() ==> fields@[i].0@ != fields@[j].0@,
    ensures
        json_tree(r) == JsonTree::Object(
            object_of(fields@.map_values(|p: (String, serde_json::Value)| (p.0@, json_tree(p.1)))),
        ),
{
    serde_json::Value::Object(fields.into_iter().collect())
}

/// Relies on `serde_json::Value`'s `Display`: the compact JSON text of `v`,
/// which is never empty.
#[verifier::external_body]
fn json_text(v: &serde_json::Value) -> (r: String)
    ensures
        text_tree(json_tree(*v)) ==> r@ == json_render(json_tree(*v)),
        r@.len() > 0,
{
    v.to_string()
}

/// Why the text of a notes file was refused.
#[derive(PartialEq, Eq, Structural, Clone, Copy, Debug)]
pub enum NotesFileError {
    /// The file is empty.
    Empty,
    /// The text is no JSON document.
    InvalidJson,
    /// The document has no array `notes`.
    MissingNotes,
    /// A note lacks its `title`, `body` or `date` string.
    MissingField,
}

/// The member name of the array of notes.
pub open spec fn notes_key() -> Seq<char> {
    seq!['n', 'o', 't', 'e', 's']
}

/// The member name of a note's title.
pub open spec fn title_key() -> Seq<char> {
    seq!['t', 'i', 't', 'l', 'e']
}

/// The member name of a note's text.
pub open spec fn body_key() -> Seq<char> {
    seq!['b', 'o', 'd', 'y']
}

/// The member name of a note's date.
pub open spec fn date_key() -> Seq<char> {
    seq!['d', 'a', 't', 'e']
}

/// The JSON object of one note.
pub open spec fn note_tree(n: (Seq<char>, Seq<char>, Seq<char>)) -> JsonTree {
    JsonTree::Object(
        Map::empty().insert(title_key(), JsonTree::Str(n.0)).insert(body_key(), JsonTree::Str(n.2)).insert(
            date_key(),
            JsonTree::Str(n.1),
        ),
    )
}

/// The JSON document of a list of notes: `{"notes": [..]}`, one object per note.
pub open spec fn notes_doc(list: Seq<Note>) -> JsonTree {
    JsonTree::Object(
        Map::empty().insert(
            notes_key(),
            JsonTree::Array(list.map_values(|n: Note| note_tree(n@))),
        ),
    )
}

/// The string member `key` of `t`, if `t` is an object that has one.
pub open spec fn string_field(t: JsonTree, key: Seq<char>) -> Option<Seq<char>> {
    match t {
        JsonTree::Object(m) => if m.contains_key(key) {
            match m[key] {
                JsonTree::Str(s) => Some(s),
                _ => None,
            }
        } else {
            None
        },
        _ => None,
    }
}

/// The array `notes` of the document `t`, if it has one.
pub open spec fn notes_items(t: JsonTree) -> Option<Seq<JsonTree>> {
    match t {
        JsonTree::Object(m) => if m.contains_key(notes_key()) {
            match m[notes_key()] {
                JsonTree::Array(items) => Some(items),
                _ => None,
            }
        } else {
            None
        },
        _ => None,
    }
}

/// The title, text and date strings that a note object holds.
pub open spec fn item_record(t: JsonTree) -> (Option<Seq<char>>, Option<Seq<char>>, Option<Seq<char>>) {
    (string_field(t, title_key()), string_field(t, body_key()), string_field(t, date_key()))
}

/// The records of a list of note objects.
pub open spec fn item_records(items: Seq<JsonTree>) -> Seq<(Option<Seq<char>>, Option<Seq<char>>, Option<Seq<char>>)> {
    items.map_values(|t: JsonTree| item_record(t))
}

/// The view of an optional string.
pub open spec fn opt_view(o: Option<String>) -> Option<Seq<char>> {
    match o {
        Some(s) => Some(s@),
        None => None,
    }
}

/// The views of records of title, text and date.
pub open spec fn field_views(f: Seq<(Option<String>, Option<String>, Option<String>)>) -> Seq<(Option<Seq<char>>, Option<Seq<char>>, Option<Seq<char>>)> {
    f.map_values(|r: (Option<String>, Option<String>, Option<String>)| (opt_view(r.0), opt_view(r.1), opt_view(r.2)))
}

/// Every record has its title, text and date.
pub open spec fn records_complete(rs: Seq<(Option<Seq<char>>, Option<Seq<char>>, Option<Seq<char>>)>) -> bool {
    forall|i: int| 0 <= i < rs.len() ==> (#[trigger] rs[i]).0 is Some && rs[i].1 is Some && rs[i].2 is Some
}

/// The notes that complete records (title, text, date) make, keyed by title;
/// a later record replaces an earlier one of the same title.
pub open spec fn records_map(rs: Seq<(Option<Seq<char>>, Option<Seq<char>>, Option<Seq<char>>)>) -> Map<Seq<char>, (Seq<char>, Seq<char>, Seq<char>)>
    decreases rs.len(),
{
    if rs.len() == 0 {
        Map::empty()
    } else {
        let r = rs.last();
        records_map(rs.drop_last()).insert(r.0->0, (r.0->0, r.2->0, r.1->0))
    }
}

/// The notes that the records (title, text, date) of a notes file make,
/// keyed by title, a later record replacing an earlier one of the same title;
/// an error where a record lacks one of the three.
pub fn notes_from_fields(fields: Vec<(Option<String>, Option<String>, Option<String>)>) -> (r: Result<Notes, NotesFileError>)
    ensures
        records_complete(field_views(fields@)) <==> r is Ok,
        !records_complete(field_views(fields@)) ==> r == Err::<Notes, NotesFileError>(NotesFileError::MissingField),
        r matches Ok(n) ==> n.wf() && n@ == records_map(field_views(fields@)),
{
    let ghost views = field_views(fields@);
    let mut notes = Notes::new();
    let mut i: usize = 0;
    while i < fields.len()
        invariant
            i <= fields@.len(),
            views == field_views(fields@),
            records_complete(views.take(i as int)),
            notes.wf(),
            notes@ == records_map(views.take(i as int)),
        decreases fields@.len() - i,
    {
        let f = &fields[i];
        assert(views[i as int] == (opt_view(f.0), opt_view(f.1), opt_view(f.2)));
        let (title, body, date) = match (&f.0, &f.1, &f.2) {
            (Some(t), Some(b), Some(d)) => (t.clone(), b.clone(), d.clone()),
            _ => {
                assert(!records_complete(views)) by {
                    assert(!(views[i as int].0 is Some && views[i as int].1 is Some && views[i as int].2 is Some));
                }
                return Err(NotesFileError::MissingField);
            },
        };
        assert(views.take(i as int + 1) =~= views.take(i as int).push(views[i as int]));
        assert(views.take(i as int + 1).drop_last() =~= views.take(i as int));
        notes.insert(Note { title, date, body });
        i = i + 1;
    }
    assert(views.take(i as int) =~= views);
    Ok(notes)
}

/// The string member `key` of the JSON value `v`.
fn string_member(v: &serde_json::Value, key: &str) -> (r: Option<String>)
    ensures
        opt_view(r) == string_field(json_tree(*v), key@),
{
    match member(v, key) {
        Some(m) => string_of(&m),
        None => None,
    }
}

/// The notes that the JSON text `text` holds, in the form
/// `{"notes": [{"title": .., "body": .., "date": ..}, ..]}`, keyed by title.
/// An empty text holds no notes file.
pub fn read_notes(text: &str) -> (r: Result<Notes, NotesFileError>)
    ensures
        text@.len() == 0 <==> r == Err::<Notes, NotesFileError>(NotesFileError::Empty),
        text@.len() > 0 ==> match json_parse(text@) {
            None => r == Err::<Notes, NotesFileError>(NotesFileError::InvalidJson),
            Some(t) => match notes_items(t) {
                None => r == Err::<Notes, NotesFileError>(NotesFileError::MissingNotes),
                Some(items) => if records_complete(item_records(items)) {
                    r matches Ok(n) && n.wf() && n@ == records_map(item_records(items))
                } else {
                    r == Err::<Notes, NotesFileError>(NotesFileError::MissingField)
                },
            },
        },
        text@.len() > 0 ==> forall|t: JsonTree| json_readable(t) && text@ == #[trigger] json_render(t) ==> json_parse(text@) == Some(t),
{
    if text.unicode_len() == 0 {
        return Err(NotesFileError::Empty);
    }
    let doc = match parse_json(text) {
        Some(d) => d,
        None => return Err(NotesFileError::InvalidJson),
    };
    let ghost t = json_tree(doc);
    proof {
        reveal_strlit("notes");
        reveal_strlit("title");
        reveal_strlit("body");
        reveal_strlit("date");
        assert("notes"@ =~= notes_key());
        assert("title"@ =~= title_key());
        assert("body"@ =~= body_key());
        assert("date"@ =~= date_key());
    }
    let items = match member(&doc, "notes") {
        Some(a) => match array_items(&a) {
            Some(items) => items,
            None => return Err(NotesFileError::MissingNotes),
        },
        None => return Err(NotesFileError::MissingNotes),
    };
    let ghost model = notes_items(t)->0;
    assert(item_records(model).len() == items@.len());
    let mut fields: Vec<(Option<String>, Option<String>, Option<String>)> = Vec::new();
    let mut i: usize = 0;
    while i < items.len()
        invariant
            i <= items@.len(),
            items@.len() == model.len(),
            forall|j: int| 0 <= j < model.len() ==> json_tree(#[trigger] items@[j]) == model[j],
            field_views(fields@) == item_records(model).take(i as int),
            "title"@ == title_key(),
            "body"@ == body_key(),
            "date"@ == date_key(),
        decreases items@.len() - i,
    {
        let item = &items[i];
        let title = string_member(item, "title");
        let body = string_member(item, "body");
        let date = string_member(item, "date");
        let ghost before = fields@;
        fields.push((title, body, date));
        assert(field_views(fields@) =~= field_views(before).push((opt_view(title), opt_view(body), opt_view(date))));
        assert(item_records(model).take(i as int + 1) =~= item_records(model).take(i as int).push(item_record(model[i as int])));
        i = i + 1;
    }
    assert(item_records(model).take(i as int) =~= item_records(model));
    notes_from_fields(fields)
}

proof fn lemma_note_tree_text(n: (Seq<char>, Seq<char>, Seq<char>))
    ensures
        text_tree(note_tree(n)),
{
    let m = Map::empty().insert(title_key(), JsonTree::Str(n.0)).insert(body_key(), JsonTree::Str(n.2)).insert(
        date_key(),
        JsonTree::Str(n.1),
    );
    assert(m.dom().finite());
    assert forall|k: Seq<char>| #[trigger] m.contains_key(k) implies text_tree(m[k]) by {
    }
}

proof fn lemma_notes_doc_text(list: Seq<Note>)
    ensures
        text_tree(notes_doc(list)),
{
    let items = list.map_values(|n: Note| note_tree(n@));
    assert forall|i: int| 0 <= i < items.len() implies text_tree(#[trigger] items[i]) by {
        lemma_note_tree_text(list[i]@);
    }
    assert(text_tree(JsonTree::Array(items)));
    let m = Map::empty().insert(notes_key(), JsonTree::Array(items));
    assert(m.dom().finite());
    assert forall|k: Seq<char>| #[trigger] m.contains_key(k) implies text_tree(m[k]) by {
    }
}

proof fn lemma_note_tree_nested(n: (Seq<char>, Seq<char>, Seq<char>), d: nat)
    requires
        d >= 1,
    ensures
        nested_within(note_tree(n), d),
{
    let m = Map::empty().insert(title_key(), JsonTree::Str(n.0)).insert(body_key(), JsonTree::Str(n.2)).insert(
        date_key(),
        JsonTree::Str(n.1),
    );
    assert forall|k: Seq<char>| #[trigger] m.contains_key(k) implies nested_within(m[k], (d - 1) as nat) by {
    }
}

/// The notes document nests three deep: an object, its array, the note objects.
proof fn lemma_notes_doc_nested(list: Seq<Note>, d: nat)
    requires
        d >= 3,
    ensures
        nested_within(notes_doc(list), d),
{
    let items = list.map_values(|n: Note| note_tree(n@));
    assert forall|i: int| 0 <= i < items.len() implies nested_within(#[trigger] items[i], (d - 2) as nat) by {
        lemma_note_tree_nested(list[i]@, (d - 2) as nat);
    }
    assert(nested_within(JsonTree::Array(items), (d - 1) as nat));
    let m = Map::empty().insert(notes_key(), JsonTree::Array(items));
    assert forall|k: Seq<char>| #[trigger] m.contains_key(k) implies nested_within(m[k], (d - 1) as nat) by {
    }
}

proof fn lemma_records_of_list(list: Seq<Note>)
    requires
        titles_distinct(list),
    ensures
        records_complete(item_records(notes_doc(list)->Object_0[notes_key()]->Array_0)),
        records_map(item_records(notes_doc(list)->Object_0[notes_key()]->Array_0)) == notes_map(list),
    decreases list.len(),
{
    let items = list.map_values(|n: Note| note_tree(n@));
    let doc_map = Map::empty().insert(notes_key(), JsonTree::Array(items));
    assert(notes_doc(list)->Object_0 == doc_map);
    assert(doc_map[notes_key()] == JsonTree::Array(items));
    let rs = item_records(items);
    assert forall|i: int| 0 <= i < rs.len() implies #[trigger] rs[i] == (Some(list[i].title@), Some(list[i].body@), Some(list[i].date@)) by {
        let n = list[i]@;
        let m = Map::empty().insert(title_key(), JsonTree::Str(n.0)).insert(body_key(), JsonTree::Str(n.2)).insert(
            date_key(),
            JsonTree::Str(n.1),
        );
        assert(title_key() != body_key() && title_key() != date_key() && body_key() != date_key()) by {
            assert(title_key()[0] != body_key()[0]);
            assert(title_key()[0] != date_key()[0]);
            assert(body_key()[0] != date_key()[0]);
        }
        assert(m[title_key()] == JsonTree::Str(n.0));
        assert(m[body_key()] == JsonTree::Str(n.2));
    }
    if list.len() > 0 {
        let d = list.drop_last();
        assert(titles_distinct(d));
        lemma_records_of_list(d);
        let dd = Map::empty().insert(notes_key(), JsonTree::Array(d.map_values(|n: Note| note_tree(n@))));
        assert(notes_doc(d)->Object_0 == dd);
        assert(dd[notes_key()] == JsonTree::Array(d.map_values(|n: Note| note_tree(n@))));
        let rd = item_records(d.map_values(|n: Note| note_tree(n@)));
        assert(rd.len() == d.len());
        assert forall|i: int| 0 <= i < rd.len() implies #[trigger] rd[i] == rs[i] by {
            assert(d[i] == list[i]);
        }
        assert(rs.drop_last() =~= rd);
    }
}

/// The notes text that `write_notes` produces is made of strings, arrays and
/// objects nested three deep, so serde_json reads it back as the same
/// document; and that document, read as a notes file, gives back the same
/// notes.
pub proof fn lemma_notes_json_round_trip(n: Notes)
    requires
        n.wf(),
    ensures
        nested_within(notes_doc(n.list()), 3),
        json_readable(notes_doc(n.list())),
        notes_items(notes_doc(n.list())) matches Some(items) && records_complete(item_records(items))
            && records_map(item_records(items)) == n@,
{
    lemma_notes_doc_text(n.list());
    lemma_notes_doc_nested(n.list(), 3);
    lemma_notes_doc_nested(n.list(), 127);
    lemma_records_of_list(n.list());
}

impl Notes {
    /// The notes as compact JSON text, in the form
    /// `{"notes": [{"body": .., "date": .., "title": ..}, ..]}`.
    pub fn write_notes(&self) -> (r: String)
        requires
            self.wf(),
        ensures
            r@ == json_render(notes_doc(self.list())),
            r@.len() > 0,
    {
        let list = self.notes();
        proof {
            reveal_strlit("notes");
            reveal_strlit("title");
            reveal_strlit("body");
            reveal_strlit("date");
            assert("notes"@ =~= notes_key());
            assert("title"@ =~= title_key());
            assert("body"@ =~= body_key());
            assert("date"@ =~= date_key());
        }
        let ghost want = self.list().map_values(|n: Note| note_tree(n@));
        let mut items: Vec<serde_json::Value> = Vec::new();
        let mut i: usize = 0;
        while i < list.len()
            invariant
                i <= list@.len(),
                list@.len() == self.list().len(),
                forall|j: int| 0 <= j < list@.len() ==> #[trigger] list@[j]@ == self.list()[j]@,
                want == self.list().map_values(|n: Note| note_tree(n@)),
                items@.map_values(|v: serde_json::Value| json_tree(v)) == want.take(i as int),
                "title"@ == title_key(),
                "body"@ == body_key(),
                "date"@ == date_key(),
            decreases list@.len() - i,
        {
            let n = list[i].duplicate();
            let ghost nv = n@;
            let mut fields: Vec<(String, serde_json::Value)> = Vec::new();
            fields.push(("title".to_owned(), json_string(n.title)));
            fields.push(("body".to_owned(), json_string(n.body)));
            fields.push(("date".to_owned(), json_string(n.date)));
            assert(title_key()[0] != body_key()[0]);
            assert(title_key()[0] != date_key()[0]);
            assert(body_key()[0] != date_key()[0]);
            let ghost fs = fields@.map_values(|p: (String, serde_json::Value)| (p.0@, json_tree(p.1)));
            assert(fs.len() == 3);
            assert(fs[0] == (title_key(), JsonTree::Str(nv.0)));
            assert(fs[1] == (body_key(), JsonTree::Str(nv.2)));
            assert(fs[2] == (date_key(), JsonTree::Str(nv.1)));
            assert(fs.drop_last() =~= fs.take(2));
            assert(fs.take(2).drop_last() =~= fs.take(1));
            assert(fs.take(1).drop_last() =~= Seq::<(Seq<char>, JsonTree)>::empty());
            assert(object_of(fs.take(1).drop_last()) == Map::<Seq<char>, JsonTree>::empty());
            assert(fs.take(1).last() == fs[0]);
            assert(object_of(fs.take(1)) == Map::<Seq<char>, JsonTree>::empty().insert(fs[0].0, fs[0].1));
            assert(object_of(fs.take(2)) == object_of(fs.take(1)).insert(fs[1].0, fs[1].1));
            assert(object_of(fs) == object_of(fs.take(2)).insert(fs[2].0, fs[2].1));
            assert(object_of(fs) =~= note_tree(nv)->Object_0);
            let o = json_object(fields);
            let ghost before = items@;
            items.push(o);
            assert(items@.map_values(|v: serde_json::Value| json_tree(v)) =~= before.map_values(|v: serde_json::Value| json_tree(v)).push(json_tree(o)));
            assert(want.take(i as int + 1) =~= want.take(i as int).push(want[i as int]));
            i = i + 1;
        }
        assert(want.take(i as int) =~= want);
        let mut doc: Vec<(String, serde_json::Value)> = Vec::new();
        doc.push(("notes".to_owned(), json_array(items)));
        let ghost fs = doc@.map_values(|p: (String, serde_json::Value)| (p.0@, json_tree(p.1)));
        assert(fs.len() == 1);
        assert(fs[0] == (notes_key(), JsonTree::Array(want)));
        assert(fs.drop_last() =~= Seq::<(Seq<char>, JsonTree)>::empty());
        assert(object_of(fs.drop_last()) == Map::<Seq<char>, JsonTree>::empty());
        assert(fs.last() == fs[0]);
        assert(object_of(fs) == Map::<Seq<char>, JsonTree>::empty().insert(fs[0].0, fs[0].1));
        assert(object_of(fs) =~= notes_doc(self.list())->Object_0);
        let d = json_object(doc);
        proof {
            lemma_notes_doc_text(self.list());
        }
        json_text(&d)
    }
}

} // verus!
