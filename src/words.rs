use vstd::prelude::*;
use vstd::string::*;

verus! {

/// Whether `c` has the Unicode `White_Space` property.
pub open spec fn is_white(c: char) -> bool {
    let u = c as u32;
    (0x09 <= u && u <= 0x0d) || u == 0x20 || u == 0x85 || u == 0xa0 || u == 0x1680
        || (0x2000 <= u && u <= 0x200a) || u == 0x2028 || u == 0x2029 || u == 0x202f
        || u == 0x205f || u == 0x3000
}

/// The maximal runs of non-whitespace characters of `s`, in order.
pub open spec fn words(s: Seq<char>) -> Seq<Seq<char>>
    decreases s.len(),
{
    if s.len() == 0 {
        Seq::empty()
    } else {
        let p = words(s.drop_last());
        let c = s.last();
        if is_white(c) {
            p
        } else if s.len() >= 2 && !is_white(s[s.len() - 2]) {
            p.drop_last().push(p.last().push(c))
        } else {
            p.push(seq![c])
        }
    }
}

/// The views of a sequence of strings.
pub open spec fn string_views(v: Seq<String>) -> Seq<Seq<char>> {
    v.map_values(|x: String| x@)
}

/// Whether `c` has the Unicode `White_Space` property.
pub fn is_whitespace(c: char) -> (r: bool)
    ensures
        r == is_white(c),
{
    let u = c as u32;
    (0x09 <= u && u <= 0x0d) || u == 0x20 || u == 0x85 || u == 0xa0 || u == 0x1680
        || (0x2000 <= u && u <= 0x200a) || u == 0x2028 || u == 0x2029 || u == 0x202f
        || u == 0x205f || u == 0x3000
}

/// The whitespace-separated words of `text`, in order.
pub fn split_words(text: &str) -> (r: Vec<String>)
    ensures
        string_views(r@) == words(text@),
{
    let n = text.unicode_len();
    let mut done: Vec<String> = Vec::new();
    let mut in_word = false;
    let mut start: usize = 0;
    let mut i: usize = 0;
    while i < n
        invariant
            n == text@.len(),
            i <= n,
            start <= i,
            in_word ==> start < i && !is_white(text@[i - 1])
                && words(text@.take(i as int)) == string_views(done@).push(
                text@.subrange(start as int, i as int),
            ),
            !in_word ==> (i == 0 || is_white(text@[i - 1])) && words(text@.take(i as int))
                == string_views(done@),
        decreases n - i,
    {
        let c = text.get_char(i);
        let ghost pre = text@.take(i as int + 1);
        assert(pre.drop_last() =~= text@.take(i as int));
        assert(pre.last() == c);
        if is_whitespace(c) {
            if in_word {
                let w = text.substring_char(start, i).to_owned();
                let ghost before = done@;
                done.push(w);
                in_word = false;
                assert(string_views(done@) =~= string_views(before).push(w@));
            }
        } else {
            if in_word {
                assert(pre[pre.len() - 2] == text@[i - 1]);
                assert(text@.subrange(start as int, i as int).push(c) =~= text@.subrange(
                    start as int,
                    i as int + 1,
                ));
            } else {
                start = i;
                in_word = true;
                assert(seq![c] =~= text@.subrange(i as int, i as int + 1));
            }
        }
        i = i + 1;
    }
    assert(text@.take(n as int) =~= text@);
    if in_word {
        let w = text.substring_char(start, n).to_owned();
        let ghost before = done@;
        done.push(w);
        assert(string_views(done@) =~= string_views(before).push(w@));
    }
    done
}

/// The lowercase form of a string, as std's Unicode case mapping gives it.
pub uninterp spec fn lower_of(s: Seq<char>) -> Seq<char>;

/// Relies on `str::to_lowercase`: the result depends on the characters alone,
/// and an empty string stays empty.
#[verifier::external_body]
fn lowercase(s: &str) -> (r: String)
    ensures
        r@ == lower_of(s@),
        s@.len() == 0 ==> r@.len() == 0,
{
    s.to_lowercase()
}

/// The words of `s`, each in lowercase.
pub open spec fn lowered_words(s: Seq<char>) -> Seq<Seq<char>> {
    words(s).map_values(|w: Seq<char>| lower_of(w))
}

/// How many times `w` occurs in `ws`.
pub open spec fn count_in(ws: Seq<Seq<char>>, w: Seq<char>) -> nat
    decreases ws.len(),
{
    if ws.len() == 0 {
        0
    } else {
        count_in(ws.drop_last(), w) + if ws.last() == w { 1nat } else { 0nat }
    }
}

/// The sum of the counts of a frequency table.
pub open spec fn sum_counts(t: Seq<(String, u64)>) -> int
    decreases t.len(),
{
    if t.len() == 0 {
        0
    } else {
        sum_counts(t.drop_last()) + t.last().1
    }
}

/// No word stands twice in the table.
pub open spec fn keys_distinct(t: Seq<(String, u64)>) -> bool {
    forall|i: int, j: int| 0 <= i < j < t.len() ==> t[i].0@ != t[j].0@
}

/// The counts never increase along the table.
pub open spec fn sorted_by_count(t: Seq<(String, u64)>) -> bool {
    forall|i: int, j: int| 0 <= i < j < t.len() ==> t[i].1 >= t[j].1
}

/// `t` lists each word of `ws` once, with the number of its occurrences.
pub open spec fn is_frequency_table(t: Seq<(String, u64)>, ws: Seq<Seq<char>>) -> bool {
    &&& keys_distinct(t)
    &&& forall|i: int| 0 <= i < t.len() ==> #[trigger] t[i].1 == count_in(ws, t[i].0@) && t[i].1 > 0
    &&& forall|k: int| 0 <= k < ws.len() ==> exists|i: int| 0 <= i < t.len() && #[trigger] t[i].0@ == #[trigger] ws[k]
}

proof fn lemma_sum_update(t: Seq<(String, u64)>, j: int, e: (String, u64))
    requires
        0 <= j < t.len(),
    ensures
        sum_counts(t.update(j, e)) == sum_counts(t) - t[j].1 + e.1,
    decreases t.len(),
{
    if j < t.len() - 1 {
        assert(t.update(j, e).drop_last() =~= t.drop_last().update(j, e));
        lemma_sum_update(t.drop_last(), j, e);
    } else {
        assert(t.update(j, e).drop_last() =~= t.drop_last());
    }
}

proof fn lemma_sum_insert(t: Seq<(String, u64)>, j: int, e: (String, u64))
    requires
        0 <= j <= t.len(),
    ensures
        sum_counts(t.insert(j, e)) == sum_counts(t) + e.1,
    decreases t.len(),
{
    if j < t.len() {
        assert(t.insert(j, e).drop_last() =~= t.drop_last().insert(j, e));
        lemma_sum_insert(t.drop_last(), j, e);
    } else {
        assert(t.insert(j, e) =~= t.push(e));
        assert(t.push(e).drop_last() =~= t);
    }
}

proof fn lemma_count_bound(ws: Seq<Seq<char>>, w: Seq<char>)
    ensures
        count_in(ws, w) <= ws.len(),
    decreases ws.len(),
{
    if ws.len() > 0 {
        lemma_count_bound(ws.drop_last(), w);
    }
}

proof fn lemma_count_positive(ws: Seq<Seq<char>>, w: Seq<char>)
    requires
        count_in(ws, w) > 0,
    ensures
        exists|k: int| 0 <= k < ws.len() && ws[k] == w,
    decreases ws.len(),
{
    if ws.last() == w {
        assert(ws[ws.len() - 1] == w);
    } else {
        lemma_count_positive(ws.drop_last(), w);
        let k = choose|k: int| 0 <= k < ws.drop_last().len() && ws.drop_last()[k] == w;
        assert(ws[k] == w);
    }
}

/// The position of `w` among the words of `t`, or the length of `t` where it
/// is not there.
fn find_word(t: &Vec<(String, u64)>, w: &String) -> (j: usize)
    ensures
        j <= t@.len(),
        j < t@.len() ==> t@[j as int].0@ == w@,
        forall|i: int| 0 <= i < j ==> t@[i].0@ != w@,
{
    let mut j: usize = 0;
    while j < t.len()
        invariant
            j <= t@.len(),
            forall|i: int| 0 <= i < j ==> t@[i].0@ != w@,
        decreases t@.len() - j,
    {
        if t[j].0 == *w {
            return j;
        }
        j = j + 1;
    }
    j
}

/// Counts the occurrences of each string of `ws`.
pub fn count_words(ws: &Vec<String>) -> (t: Vec<(String, u64)>)
    ensures
        is_frequency_table(t@, string_views(ws@)),
        sum_counts(t@) == ws@.len(),
{
    let ghost all = string_views(ws@);
    let mut t: Vec<(String, u64)> = Vec::new();
    let mut k: usize = 0;
    while k < ws.len()
        invariant
            k <= ws@.len(),
            all == string_views(ws@),
            is_frequency_table(t@, all.take(k as int)),
            sum_counts(t@) == k,
            t@.len() <= k,
        decreases ws@.len() - k,
    {
        let w = &ws[k];
        let ghost done = all.take(k as int);
        let ghost next = all.take(k as int + 1);
        assert(next.drop_last() =~= done);
        assert(next.last() == w@);
        let j = find_word(&t, w);
        assert forall|i: int| 0 <= i < t@.len() && i != j implies #[trigger] count_in(next, t@[i].0@) == count_in(done, t@[i].0@) by {
            if i > j {
                assert(keys_distinct(t@));
                assert(t@[j as int].0@ != t@[i].0@);
            }
            assert(t@[i].0@ != w@);
        }
        if j < t.len() {
            assert(t@[j as int].0@ == w@);
            let c = t[j].1;
            proof {
                lemma_count_bound(done, w@);
            }
            let key = t[j].0.clone();
            let ghost before = t@;
            t.set(j, (key, c + 1));
            proof {
                lemma_sum_update(before, j as int, (key, (c + 1) as u64));
            }
            assert forall|m: int| 0 <= m < next.len() implies exists|i: int| 0 <= i < t@.len() && #[trigger] t@[i].0@ == #[trigger] next[m] by {
                if m < k {
                    assert(done[m] == next[m]);
                    let i = choose|i: int| 0 <= i < before.len() && before[i].0@ == done[m];
                    assert(t@[i].0@ == next[m]);
                } else {
                    assert(t@[j as int].0@ == next[m]);
                }
            }
        } else {
            proof {
                assert(count_in(done, w@) == 0) by {
                    if count_in(done, w@) > 0 {
                        lemma_count_positive(done, w@);
                        let m = choose|m: int| 0 <= m < done.len() && done[m] == w@;
                        let i = choose|i: int| 0 <= i < t@.len() && t@[i].0@ == done[m];
                    }
                }
            }
            let key = w.clone();
            let ghost before = t@;
            t.push((key, 1));
            proof {
                assert(t@ =~= before.insert(before.len() as int, (key, 1u64)));
                lemma_sum_insert(before, before.len() as int, (key, 1u64));
            }
            assert forall|m: int| 0 <= m < next.len() implies exists|i: int| 0 <= i < t@.len() && #[trigger] t@[i].0@ == #[trigger] next[m] by {
                if m < k {
                    assert(done[m] == next[m]);
                    let i = choose|i: int| 0 <= i < before.len() && before[i].0@ == done[m];
                    assert(t@[i].0@ == next[m]);
                } else {
                    assert(t@[before.len() as int].0@ == next[m]);
                }
            }
        }
        k = k + 1;
    }
    assert(all.take(k as int) =~= all);
    t
}

/// Two entries name the same word with the same count.
pub open spec fn same_entry(a: (String, u64), b: (String, u64)) -> bool {
    a.0@ == b.0@ && a.1 == b.1
}

/// The entry `e` stands in `b`.
pub open spec fn has_entry(b: Seq<(String, u64)>, e: (String, u64)) -> bool {
    exists|j: int| 0 <= j < b.len() && #[trigger] same_entry(e, b[j])
}

/// Every entry of `a` stands in `b`.
#[verifier::opaque]
pub open spec fn entries_within(a: Seq<(String, u64)>, b: Seq<(String, u64)>) -> bool {
    forall|i: int| 0 <= i < a.len() ==> has_entry(b, #[trigger] a[i])
}

proof fn lemma_insert_sorted(before: Seq<(String, u64)>, e: (String, u64), p: int)
    requires
        0 <= p <= before.len(),
        sorted_by_count(before),
        forall|q: int| 0 <= q < p ==> before[q].1 >= e.1,
        p < before.len() ==> before[p].1 < e.1,
    ensures
        sorted_by_count(before.insert(p, e)),
{
    let r = before.insert(p, e);
    assert forall|a: int, b: int| 0 <= a < b < r.len() implies r[a].1 >= r[b].1 by {
        if p < before.len() {
            assert(before[p].1 < e.1);
        }
    }
}

proof fn lemma_insert_within(
    before: Seq<(String, u64)>,
    prev: Seq<(String, u64)>,
    next: Seq<(String, u64)>,
    e: (String, u64),
    p: int,
)
    requires
        0 <= p <= before.len(),
        next.len() == prev.len() + 1,
        next.drop_last() == prev,
        same_entry(e, next.last()),
        entries_within(before, prev),
        entries_within(prev, before),
    ensures
        entries_within(before.insert(p, e), next),
        entries_within(next, before.insert(p, e)),
{
    reveal(entries_within);
    let r = before.insert(p, e);
    let i = prev.len() as int;
    assert forall|a: int| 0 <= a < r.len() implies has_entry(next, #[trigger] r[a]) by {
        if a == p {
            assert(same_entry(r[a], next[i]));
        } else {
            let a0 = if a < p { a } else { a - 1 };
            assert(r[a] == before[a0]);
            assert(has_entry(prev, before[a0]));
            let j = choose|j: int| 0 <= j < prev.len() && same_entry(before[a0], prev[j]);
            assert(next[j] == prev[j]);
            assert(same_entry(r[a], next[j]));
        }
    }
    assert forall|j: int| 0 <= j < next.len() implies has_entry(r, #[trigger] next[j]) by {
        if j == i {
            assert(same_entry(next[j], r[p]));
        } else {
            assert(next[j] == prev[j]);
            assert(has_entry(before, prev[j]));
            let a0 = choose|a: int| 0 <= a < before.len() && same_entry(prev[j], before[a]);
            let a = if a0 < p { a0 } else { a0 + 1 };
            assert(same_entry(next[j], r[a]));
        }
    }
}

proof fn lemma_insert_distinct(
    before: Seq<(String, u64)>,
    prev: Seq<(String, u64)>,
    e: (String, u64),
    p: int,
)
    requires
        0 <= p <= before.len(),
        keys_distinct(before),
        entries_within(before, prev),
        forall|j: int| 0 <= j < prev.len() ==> prev[j].0@ != e.0@,
    ensures
        keys_distinct(before.insert(p, e)),
{
    reveal(entries_within);
    let r = before.insert(p, e);
    assert forall|a: int, b: int| 0 <= a < b < r.len() implies r[a].0@ != r[b].0@ by {
        if a == p || b == p {
            let o = if a == p { b } else { a };
            let o0 = if o < p { o } else { o - 1 };
            assert(r[o] == before[o0]);
            assert(has_entry(prev, before[o0]));
            let j = choose|j: int| 0 <= j < prev.len() && same_entry(before[o0], prev[j]);
        } else {
            let a0 = if a < p { a } else { a - 1 };
            let b0 = if b < p { b } else { b - 1 };
            assert(r[a] == before[a0] && r[b] == before[b0]);
        }
    }
}

/// Orders a table with distinct words by decreasing count.
fn sort_by_count(t: &Vec<(String, u64)>) -> (r: Vec<(String, u64)>)
    requires
        keys_distinct(t@),
    ensures
        sorted_by_count(r@),
        keys_distinct(r@),
        entries_within(r@, t@),
        entries_within(t@, r@),
        sum_counts(r@) == sum_counts(t@),
{
    let mut r: Vec<(String, u64)> = Vec::new();
    let mut i: usize = 0;
    proof {
        reveal(entries_within);
    }
    while i < t.len()
        invariant
            i <= t@.len(),
            keys_distinct(t@),
            sorted_by_count(r@),
            keys_distinct(r@),
            entries_within(r@, t@.take(i as int)),
            entries_within(t@.take(i as int), r@),
            sum_counts(r@) == sum_counts(t@.take(i as int)),
        decreases t@.len() - i,
    {
        let c = t[i].1;
        let mut p: usize = 0;
        while p < r.len() && r[p].1 >= c
            invariant
                p <= r@.len(),
                forall|q: int| 0 <= q < p ==> r@[q].1 >= c,
            decreases r@.len() - p,
        {
            p = p + 1;
        }
        let e = (t[i].0.clone(), c);
        let ghost before = r@;
        let ghost prev = t@.take(i as int);
        let ghost next = t@.take(i as int + 1);
        assert(next.drop_last() =~= prev);
        assert(same_entry(e, t@[i as int]));
        r.insert(p, e);
        assert(r@ =~= before.insert(p as int, e));
        proof {
            lemma_sum_insert(before, p as int, e);
        }
        proof {
            assert forall|j: int| 0 <= j < prev.len() implies prev[j].0@ != e.0@ by {
                assert(prev[j] == t@[j]);
            }
            lemma_insert_sorted(before, e, p as int);
            lemma_insert_within(before, prev, next, e, p as int);
            lemma_insert_distinct(before, prev, e, p as int);
        }
        i = i + 1;
    }
    assert(t@.take(i as int) =~= t@);
    r
}

/// The lowercase words of `text` with the number of times each occurs,
/// ordered by decreasing count; the counts add up to the number of words.
pub fn analyse(text: String) -> (r: Vec<(String, u64)>)
    ensures
        is_frequency_table(r@, lowered_words(text@)),
        sorted_by_count(r@),
        sum_counts(r@) == words(text@).len(),
{
    let tokens = split_words(text.as_str());
    let mut lowered: Vec<String> = Vec::new();
    let mut k: usize = 0;
    while k < tokens.len()
        invariant
            k <= tokens@.len(),
            string_views(tokens@) == words(text@),
            string_views(lowered@) == lowered_words(text@).take(k as int),
        decreases tokens@.len() - k,
    {
        assert(string_views(tokens@)[k as int] == tokens@[k as int]@);
        assert(lowered_words(text@)[k as int] == lower_of(words(text@)[k as int]));
        let w = lowercase(tokens[k].as_str());
        let ghost before = lowered@;
        lowered.push(w);
        assert(string_views(lowered@) =~= string_views(before).push(w@));
        assert(lowered_words(text@).take(k as int + 1) =~= lowered_words(text@).take(k as int).push(
            lowered_words(text@)[k as int],
        ));
        k = k + 1;
    }
    assert(string_views(lowered@) =~= lowered_words(text@));
    let table = count_words(&lowered);
    let r = sort_by_count(&table);
    let ghost lw = lowered_words(text@);
    reveal(entries_within);
    assert forall|i: int| 0 <= i < r@.len() implies #[trigger] r@[i].1 == count_in(lw, r@[i].0@) && r@[i].1 > 0 by {
        assert(has_entry(table@, r@[i]));
        let j = choose|j: int| 0 <= j < table@.len() && same_entry(r@[i], table@[j]);
    }
    assert forall|k: int| 0 <= k < lw.len() implies exists|i: int| 0 <= i < r@.len() && #[trigger] r@[i].0@ == #[trigger] lw[k] by {
        let j = choose|j: int| 0 <= j < table@.len() && table@[j].0@ == lw[k];
        assert(has_entry(r@, table@[j]));
        let i = choose|i: int| 0 <= i < r@.len() && same_entry(table@[j], r@[i]);
        assert(r@[i].0@ == lw[k]);
    }
    r
}

/// The decimal digits of `n`, without leading zeros; `0` for zero.
pub open spec fn decimal(n: nat) -> Seq<char>
    decreases n,
{
    if n < 10 {
        seq![digit_char(n)]
    } else {
        decimal(n / 10).push(digit_char(n % 10))
    }
}

/// The character of a decimal digit.
pub open spec fn digit_char(d: nat) -> char {
    ('0' as u32 + d) as char
}

/// `n` copies of the character `c`.
pub open spec fn filler(c: char, n: int) -> Seq<char>
    decreases n,
{
    if n <= 0 {
        Seq::empty()
    } else {
        filler(c, n - 1).push(c)
    }
}

/// The character of the decimal digit `d`, as a string.
fn digit_text(d: u64) -> (r: &'static str)
    requires
        d < 10,
    ensures
        r@ == seq![digit_char(d as nat)],
{
    proof {
        reveal_strlit("0");
        reveal_strlit("1");
        reveal_strlit("2");
        reveal_strlit("3");
        reveal_strlit("4");
        reveal_strlit("5");
        reveal_strlit("6");
        reveal_strlit("7");
        reveal_strlit("8");
        reveal_strlit("9");
    }
    let r = match d {
        0 => "0",
        1 => "1",
        2 => "2",
        3 => "3",
        4 => "4",
        5 => "5",
        6 => "6",
        7 => "7",
        8 => "8",
        _ => "9",
    };
    assert(r@ =~= seq![digit_char(d as nat)]);
    r
}

/// The decimal digits of `n`.
pub fn decimal_text(n: u64) -> (r: String)
    ensures
        r@ == decimal(n as nat),
    decreases n,
{
    if n < 10 {
        digit_text(n).to_owned()
    } else {
        let mut r = decimal_text(n / 10);
        r.append(digit_text(n % 10));
        r
    }
}

/// Appends `count` dots to `s`.
fn append_dots(s: &mut String, count: usize)
    ensures
        final(s)@ == old(s)@ + filler('.', count as int),
{
    let mut i: usize = 0;
    proof {
        reveal_strlit(".");
        assert(old(s)@ =~= old(s)@ + filler('.', 0));
    }
    while i < count
        invariant
            i <= count,
            s@ == old(s)@ + filler('.', i as int),
        decreases count - i,
    {
        s.append(".");
        proof {
            reveal_strlit(".");
        }
        assert(s@ =~= old(s)@ + filler('.', i as int + 1));
        i = i + 1;
    }
}

/// The row of a word and its count: the word left-aligned and the count
/// right-aligned, each filled with dots to a column of twenty characters.
pub fn format_row(word: &str, count: u64) -> (r: String)
    ensures
        r@ == word@ + filler('.', 20 - word@.len()) + filler('.', 20 - decimal(count as nat).len())
            + decimal(count as nat),
{
    let mut r = String::new();
    r.append(word);
    let n = word.unicode_len();
    if n < 20 {
        append_dots(&mut r, 20 - n);
    } else {
        assert(filler('.', 20 - word@.len()) =~= Seq::<char>::empty());
        assert(r@ =~= word@ + filler('.', 20 - word@.len()));
    }
    let digits = decimal_text(count);
    let d = digits.as_str().unicode_len();
    if d < 20 {
        append_dots(&mut r, 20 - d);
    } else {
        assert(filler('.', 20 - d) =~= Seq::<char>::empty());
    }
    r.append(digits.as_str());
    r
}

} // verus!
