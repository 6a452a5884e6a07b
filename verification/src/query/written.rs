//! Queries that are written down and read again.
use vstd::prelude::*;
use vstd::utf8::*;

use crate::cell::urls::solid_end;
use crate::clipboard::html::{lemma_no_occurrence, lemma_occurrence, occurrence};
use crate::color::digit;
use crate::date::{date_text, padded, Date};
use crate::query::{
    classified, date_read, decimal, is_digit, lemma_decimal, lemma_four_digits, lemma_week_words,
    marked, number_read, query_parts, query_read, query_text, range_read, read_from, time_text,
    week_read, AstModel, Class, FiltersModel, Reading, TimeFilter,
};
use crate::text::{
    first_byte, folded, is_ascii_bytes, lemma_first_byte, lemma_first_byte_is, lower_byte,
    lower_case, occurs_at, utf8, white,
};
use crate::words::{
    all_words, is_word, joined, joined_words_are_split_again, lemma_ascii_char, lemma_ascii_word,
    lemma_joined_push, lemma_word_behind, lemma_words_of, words_of,
};

verus! {

/// Names as a query holds them: words, in lower case.
pub open spec fn proper_names(names: Seq<Seq<u8>>) -> bool {
    forall|i: int|
        0 <= i < names.len() ==> is_word(#[trigger] names[i]) && lower_case(names[i]) == names[i]
}

/// A date of a year of four digits.
pub open spec fn plain_date(d: Date) -> bool {
    d.wf() && 0 <= d.year <= 9999
}

/// A time as a query spells it.
pub open spec fn plain_time(t: TimeFilter) -> bool {
    match t {
        TimeFilter::Day(d) => plain_date(d),
        TimeFilter::Range(a, b) => plain_date(a) && plain_date(b),
        _ => true,
    }
}

/// Words that are no more than that, and no two of which in a row name a week.
pub open spec fn plain_words(words: Seq<Seq<u8>>, year: i32) -> bool {
    &&& all_words(words)
    &&& forall|i: int| 0 <= i < words.len() ==> classified(#[trigger] words[i], year) is Text
    &&& forall|i: int|
        0 <= i < words.len() - 1 ==> week_read(#[trigger] words[i], words[i + 1]) is None
}

/// The query is one that a text spells: its names are words in lower case, its dates
/// are of years of four digits, and its text is made of plain words.
pub open spec fn spelled(a: AstModel, words: Seq<Seq<u8>>, year: i32) -> bool {
    &&& proper_names(a.includes.tags)
    &&& proper_names(a.includes.people)
    &&& a.includes.time matches Some(t) ==> plain_time(t)
    &&& proper_names(a.excludes.tags)
    &&& proper_names(a.excludes.people)
    &&& a.excludes.time is None
    &&& plain_words(words, year)
    &&& a.text == joined(words)
}

// ---------------------------------------------------------------------------
// Joining
// ---------------------------------------------------------------------------

proof fn lemma_joined_add(x: Seq<Seq<u8>>, y: Seq<Seq<u8>>)
    requires
        x.len() > 0,
        y.len() > 0,
    ensures
        joined(x + y) == joined(x) + seq![32u8] + joined(y),
    decreases y.len(),
{
    let front = y.drop_last();
    assert(y =~= front.push(y.last()));
    if front.len() == 0 {
        assert(x + y =~= x.push(y[0]));
        lemma_joined_push(x, y[0]);
    } else {
        lemma_joined_add(x, front);
        lemma_joined_push(x + front, y.last());
        lemma_joined_push(front, y.last());
        assert(x + y =~= (x + front).push(y.last()));
        assert(joined(x + y) =~= joined(x) + seq![32u8] + joined(y));
    }
}

proof fn lemma_joined_swap(x: Seq<Seq<u8>>, s: Seq<Seq<u8>>, t: Seq<Seq<u8>>, y: Seq<Seq<u8>>)
    requires
        joined(s) == joined(t),
        s.len() == 0 <==> t.len() == 0,
    ensures
        joined(x + s + y) == joined(x + t + y),
{
    if s.len() == 0 {
        assert(s =~= t);
    } else {
        if x.len() > 0 {
            lemma_joined_add(x, s);
            lemma_joined_add(x, t);
        } else {
            assert(x + s =~= s);
            assert(x + t =~= t);
        }
        if y.len() > 0 {
            lemma_joined_add(x + s, y);
            lemma_joined_add(x + t, y);
        } else {
            assert(x + s + y =~= x + s);
            assert(x + t + y =~= x + t);
        }
    }
}

/// The words of a time.
pub open spec fn time_words(t: TimeFilter) -> Seq<Seq<u8>> {
    match t {
        TimeFilter::LastWeek => seq![utf8("last"@), utf8("week"@)],
        TimeFilter::ThisWeek => seq![utf8("this"@), utf8("week"@)],
        TimeFilter::NextWeek => seq![utf8("next"@), utf8("week"@)],
        _ => seq![time_text(t)],
    }
}

spec fn words_in_front(a: AstModel) -> Seq<Seq<u8>> {
    marked(seq![35u8], a.includes.tags) + marked(seq![64u8], a.includes.people)
}

spec fn words_of_time(a: AstModel) -> Seq<Seq<u8>> {
    match a.includes.time {
        Some(t) => time_words(t),
        None => Seq::empty(),
    }
}

spec fn words_behind(a: AstModel) -> Seq<Seq<u8>> {
    marked(seq![45u8, 35], a.excludes.tags) + marked(seq![45u8, 64], a.excludes.people)
}

spec fn query_words(a: AstModel, words: Seq<Seq<u8>>) -> Seq<Seq<u8>> {
    words_in_front(a) + words_of_time(a) + words_behind(a) + words
}

proof fn lemma_week_texts()
    ensures
        utf8("last week"@) == joined(time_words(TimeFilter::LastWeek)),
        utf8("this week"@) == joined(time_words(TimeFilter::ThisWeek)),
        utf8("next week"@) == joined(time_words(TimeFilter::NextWeek)),
{
    lemma_week_words();
    reveal_strlit("last week");
    reveal_strlit("this week");
    reveal_strlit("next week");
    is_ascii_chars_encode_utf8("last week"@);
    is_ascii_chars_encode_utf8("this week"@);
    is_ascii_chars_encode_utf8("next week"@);
    lemma_joined_push(seq![utf8("last"@)], utf8("week"@));
    lemma_joined_push(seq![utf8("this"@)], utf8("week"@));
    lemma_joined_push(seq![utf8("next"@)], utf8("week"@));
    assert(seq![utf8("last"@)].push(utf8("week"@)) =~= time_words(TimeFilter::LastWeek));
    assert(seq![utf8("this"@)].push(utf8("week"@)) =~= time_words(TimeFilter::ThisWeek));
    assert(seq![utf8("next"@)].push(utf8("week"@)) =~= time_words(TimeFilter::NextWeek));
    assert(utf8("last week"@) =~= utf8("last"@) + seq![32u8] + utf8("week"@));
    assert(utf8("this week"@) =~= utf8("this"@) + seq![32u8] + utf8("week"@));
    assert(utf8("next week"@) =~= utf8("next"@) + seq![32u8] + utf8("week"@));
}

proof fn lemma_query_text(a: AstModel, words: Seq<Seq<u8>>)
    requires
        all_words(words),
        a.text == joined(words),
    ensures
        query_text(a) == joined(query_words(a, words)),
{
    let (x, b) = (words_in_front(a), words_behind(a));
    let tp = match a.includes.time {
        Some(t) => seq![time_text(t)],
        None => Seq::empty(),
    };
    let tw = words_of_time(a);
    let last = if a.text.len() > 0 {
        seq![a.text]
    } else {
        Seq::empty()
    };
    lemma_week_texts();
    assert(joined(tp) =~= joined(tw));
    if words.len() > 0 {
        assert(is_word(words[0]));
        assert(joined(words).len() >= words[0].len());
    }
    assert(joined(last) =~= joined(words));
    lemma_joined_swap(x, tp, tw, b + last);
    lemma_joined_swap(x + tw + b, last, words, Seq::empty());
    assert(query_parts(a) =~= x + tp + (b + last));
    assert(x + tw + (b + last) =~= x + tw + b + last + Seq::empty());
    assert(query_words(a, words) =~= x + tw + b + words + Seq::empty());
}

// ---------------------------------------------------------------------------
// Dates
// ---------------------------------------------------------------------------

proof fn lemma_two(n: int)
    requires
        0 <= n < 100,
    ensures
        padded(n, 2) == seq![digit(n / 10), digit(n % 10)],
{
    reveal_with_fuel(padded, 3);
    assert(padded(n, 2) =~= seq![digit(n / 10), digit(n % 10)]);
}

proof fn lemma_four(n: int)
    requires
        0 <= n <= 9999,
    ensures
        padded(n, 4) == seq![
            digit(n / 1000),
            digit(n / 100 % 10),
            digit(n / 10 % 10),
            digit(n % 10),
        ],
{
    reveal_with_fuel(padded, 5);
    assert(n / 10 / 10 == n / 100);
    assert(n / 10 / 10 / 10 == n / 1000);
    assert(padded(n, 4) =~= seq![
        digit(n / 1000),
        digit(n / 100 % 10),
        digit(n / 10 % 10),
        digit(n % 10),
    ]);
}

proof fn lemma_date_bytes(d: Date)
    requires
        plain_date(d),
    ensures
        ({
            let w = date_text(d);
            &&& w.len() == 10
            &&& w[4] == 45
            &&& w[7] == 45
            &&& forall|i: int|
                0 <= i < 10 && i != 4 && i != 7 ==> is_digit(#[trigger] w[i])
            &&& decimal(w, 0, 4) == d.year
            &&& decimal(w, 5, 7) == d.month
            &&& decimal(w, 8, 10) == d.day
        }),
{
    let y = d.year as int;
    let m = d.month as int;
    let k = d.day as int;
    let w = date_text(d);
    lemma_four(y);
    lemma_two(m);
    lemma_two(k);
    assert(w =~= seq![
        digit(y / 1000),
        digit(y / 100 % 10),
        digit(y / 10 % 10),
        digit(y % 10),
        45,
        digit(m / 10),
        digit(m % 10),
        45,
        digit(k / 10),
        digit(k % 10),
    ]);
    reveal_with_fuel(decimal, 5);
}

proof fn lemma_date_read(d: Date, year: i32)
    requires
        plain_date(d),
    ensures
        date_read(date_text(d), year) == Some(d),
{
    let w = date_text(d);
    lemma_date_bytes(d);
    lemma_first_byte_is(w, 45, 0, 4);
    lemma_first_byte_is(w, 45, 5, 7);
    lemma_no_dash(w, 8);
    assert forall|i: int| 0 <= i < 4 implies is_digit(#[trigger] w[i]) by {}
    assert forall|i: int| 5 <= i < 7 implies is_digit(#[trigger] w[i]) by {}
    assert forall|i: int| 8 <= i < 10 implies is_digit(#[trigger] w[i]) by {}
    assert(w[0] != 43 && w[5] != 43 && w[8] != 43);
    assert(number_read(w, 0, 4) == Some(d.year as int));
    assert(number_read(w, 5, 7) == Some(d.month as int));
    assert(number_read(w, 8, 10) == Some(d.day as int));
}

proof fn lemma_no_dash(b: Seq<u8>, from: int)
    requires
        0 <= from <= b.len(),
        forall|i: int| from <= i < b.len() ==> b[i] != 45,
    ensures
        first_byte(b, 45, from) == b.len(),
{
    lemma_first_byte(b, 45, from);
}

proof fn lemma_no_dots(b: Seq<u8>)
    requires
        forall|i: int| 0 <= i < b.len() ==> b[i] != 46,
    ensures
        occurrence(b, seq![46u8, 46], 0) is None,
{
    assert forall|j: int| !occurs_at(b, seq![46u8, 46], j) by {
        if occurs_at(b, seq![46u8, 46], j) {
            assert(b.subrange(j, j + 2)[0] == b[j]);
        }
    }
    lemma_no_occurrence(b, seq![46u8, 46], 0);
}

proof fn lemma_today()
    ensures
        utf8("today"@) == seq![116u8, 111, 100, 97, 121],
        utf8("yesterday"@) == seq![121u8, 101, 115, 116, 101, 114, 100, 97, 121],
{
    reveal_strlit("today");
    reveal_strlit("yesterday");
    is_ascii_chars_encode_utf8("today"@);
    is_ascii_chars_encode_utf8("yesterday"@);
    assert(utf8("today"@) =~= seq![116u8, 111, 100, 97, 121]);
    assert(utf8("yesterday"@) =~= seq![121u8, 101, 115, 116, 101, 114, 100, 97, 121]);
}

proof fn lemma_day_read(d: Date, year: i32)
    requires
        plain_date(d),
    ensures
        classified(date_text(d), year) == Class::Time(TimeFilter::Day(d)),
        is_word(date_text(d)),
{
    reveal(classified);
    let w = date_text(d);
    lemma_date_bytes(d);
    lemma_date_read(d, year);
    lemma_no_dots(w);
    lemma_today();
    assert(is_digit(w[0]));
    assert(utf8("today"@)[0] == 116);
    assert(utf8("yesterday"@)[0] == 121);
    lemma_ascii_word(w);
}

proof fn lemma_range_bytes(a: Date, b: Date)
    requires
        plain_date(a),
        plain_date(b),
    ensures
        ({
            let w = time_text(TimeFilter::Range(a, b));
            &&& w.len() == 22
            &&& is_digit(w[0])
            &&& occurrence(w, seq![46u8, 46], 0) == Some(10int)
            &&& w.subrange(0, 10) == date_text(a)
            &&& w.subrange(12, 22) == date_text(b)
            &&& is_word(w)
        }),
{
    let w = time_text(TimeFilter::Range(a, b));
    let x = date_text(a);
    let y = date_text(b);
    let dots = seq![46u8, 46];
    reveal_strlit("..");
    is_ascii_chars_encode_utf8(".."@);
    assert(utf8(".."@) =~= dots);
    lemma_date_bytes(a);
    lemma_date_bytes(b);
    assert(w =~= x + dots + y);
    assert forall|i: int| 0 <= i < 10 implies w[i] == x[i] && x[i] != 46 && x[i] < 128 && !white(
        x[i] as char,
    ) by {
        if i != 4 && i != 7 {
            assert(is_digit(x[i]));
        }
    }
    assert forall|i: int| 12 <= i < 22 implies w[i] == y[i - 12] && y[i - 12] < 128 && !white(
        y[i - 12] as char,
    ) by {
        if i != 16 && i != 19 {
            assert(is_digit(y[i - 12]));
        }
    }
    assert(w.subrange(10, 12) =~= dots);
    assert forall|j: int| j < 10 implies !occurs_at(w, dots, j) by {
        if 0 <= j && occurs_at(w, dots, j) {
            assert(w.subrange(j, j + 2)[0] == w[j]);
            assert(w[j] == x[j]);
        }
    }
    lemma_occurrence(w, dots, 0, 10);
    assert(w.subrange(0, 10) =~= x);
    assert(w.subrange(12, 22) =~= y);
    assert(is_digit(x[0]));
    lemma_ascii_word(w);
}

proof fn lemma_range_read(a: Date, b: Date, year: i32)
    requires
        plain_date(a),
        plain_date(b),
    ensures
        classified(time_text(TimeFilter::Range(a, b)), year) == Class::Time(
            TimeFilter::Range(a, b),
        ),
        is_word(time_text(TimeFilter::Range(a, b))),
{
    lemma_range_bytes(a, b);
    lemma_date_read(a, year);
    lemma_date_read(b, year);
    lemma_range_class(time_text(TimeFilter::Range(a, b)), a, b, year);
}

proof fn lemma_range_class(w: Seq<u8>, a: Date, b: Date, year: i32)
    requires
        w.len() == 22,
        is_digit(w[0]),
        occurrence(w, seq![46u8, 46], 0) == Some(10int),
        date_read(w.subrange(0, 10), year) == Some(a),
        date_read(w.subrange(12, 22), year) == Some(b),
    ensures
        classified(w, year) == Class::Time(TimeFilter::Range(a, b)),
{
    reveal(classified);
    lemma_today();
    assert(utf8("today"@)[0] == 116);
    assert(utf8("yesterday"@)[0] == 121);
    assert(range_read(w, year) == Some(TimeFilter::Range(a, b)));
}

// ---------------------------------------------------------------------------
// Reading
// ---------------------------------------------------------------------------

proof fn lemma_plain_four(w: Seq<u8>, year: i32)
    requires
        w.len() == 4,
        forall|i: int| 0 <= i < 4 ==> 97 <= (#[trigger] w[i]) <= 122,
    ensures
        classified(w, year) is Text,
        is_word(w),
{
    reveal(classified);
    lemma_today();
    lemma_no_dots(w);
    lemma_no_dash(w, 0);
    lemma_ascii_word(w);
    assert(97 <= w[0]);
    assert(first_byte(w, 45, 5) == 4);
    assert(date_read(w, year) is None);
    assert(range_read(w, year) is None);
}

proof fn lemma_day_words_read(year: i32)
    ensures
        classified(utf8("today"@), year) == Class::Time(TimeFilter::Today),
        classified(utf8("yesterday"@), year) == Class::Time(TimeFilter::Yesterday),
{
    reveal(classified);
    lemma_today();
    assert(utf8("today"@).len() != utf8("yesterday"@).len());
}

proof fn lemma_weeks_read()
    ensures
        week_read(utf8("last"@), utf8("week"@)) == Some(TimeFilter::LastWeek),
        week_read(utf8("this"@), utf8("week"@)) == Some(TimeFilter::ThisWeek),
        week_read(utf8("next"@), utf8("week"@)) == Some(TimeFilter::NextWeek),
{
    lemma_week_words();
    assert(utf8("last"@)[0] == 108);
    assert(utf8("this"@)[0] == 116);
    assert(utf8("next"@)[0] == 110);
}

proof fn lemma_week_starts(year: i32)
    ensures
        classified(utf8("last"@), year) is Text,
        classified(utf8("this"@), year) is Text,
        classified(utf8("next"@), year) is Text,
        classified(utf8("week"@), year) is Text,
        all_words(time_words(TimeFilter::LastWeek)),
        all_words(time_words(TimeFilter::ThisWeek)),
        all_words(time_words(TimeFilter::NextWeek)),
{
    lemma_week_words();
    lemma_plain_four(utf8("last"@), year);
    lemma_plain_four(utf8("this"@), year);
    lemma_plain_four(utf8("next"@), year);
    lemma_plain_four(utf8("week"@), year);
}

proof fn lemma_time_words(t: TimeFilter, year: i32)
    requires
        plain_time(t),
    ensures
        all_words(time_words(t)),
{
    match t {
        TimeFilter::Day(d) => {
            lemma_day_read(d, year);
        },
        TimeFilter::Range(a, b) => {
            lemma_range_read(a, b, year);
        },
        TimeFilter::Today => {
            lemma_today();
            lemma_ascii_word(utf8("today"@));
        },
        TimeFilter::Yesterday => {
            lemma_today();
            lemma_ascii_word(utf8("yesterday"@));
        },
        _ => {
            lemma_week_starts(year);
        },
    }
}

proof fn lemma_time_read(ws: Seq<Seq<u8>>, i: int, t: TimeFilter, year: i32, q: Reading)
    requires
        0 <= i,
        i + time_words(t).len() <= ws.len(),
        ws.subrange(i, (i + time_words(t).len()) as int) == time_words(t),
        plain_time(t),
        q.words.len() == 0,
    ensures
        read_from(ws, i, year, q) == read_from(
            ws,
            (i + time_words(t).len()) as int,
            year,
            q.with(Class::Time(t)),
        ),
{
    let tw = time_words(t);
    assert(ws[i] == ws.subrange(i, (i + tw.len()) as int)[0]);
    if tw.len() == 1 {
        match t {
            TimeFilter::Day(d) => {
                lemma_day_read(d, year);
            },
            TimeFilter::Range(a, b) => {
                lemma_range_read(a, b, year);
            },
            _ => {
                lemma_day_words_read(year);
            },
        }
        assert(classified(ws[i], year) == Class::Time(t));
    } else {
        assert(ws[i + 1] == ws.subrange(i, (i + tw.len()) as int)[1]);
        lemma_weeks_read();
        lemma_week_starts(year);
        assert(week_read(ws[i], ws[i + 1]) == Some(t));
        let next = q.saying(ws[i]);
        assert(q.reading(ws[i], year) == next);
        assert(next.words.last() == ws[i]);
        assert(next.words.drop_last() =~= q.words);
        assert(next.reading(ws[i + 1], year) =~= q.with(Class::Time(t)));
        assert(read_from(ws, i, year, q) == read_from(ws, i + 1, year, next));
        assert(read_from(ws, i + 1, year, next) == read_from(
            ws,
            i + 2,
            year,
            next.reading(ws[i + 1], year),
        ));
    }
}

/// A reading with more names.
spec fn with_names(q: Reading, mark: Seq<u8>, names: Seq<Seq<u8>>) -> Reading {
    if mark == seq![35u8] {
        Reading {
            includes: FiltersModel { tags: q.includes.tags + names, ..q.includes },
            ..q
        }
    } else if mark == seq![64u8] {
        Reading {
            includes: FiltersModel { people: q.includes.people + names, ..q.includes },
            ..q
        }
    } else if mark == seq![45u8, 35] {
        Reading {
            excludes: FiltersModel { tags: q.excludes.tags + names, ..q.excludes },
            ..q
        }
    } else {
        Reading {
            excludes: FiltersModel { people: q.excludes.people + names, ..q.excludes },
            ..q
        }
    }
}

spec fn is_mark(mark: Seq<u8>) -> bool {
    mark == seq![35u8] || mark == seq![64u8] || mark == seq![45u8, 35] || mark == seq![45u8, 64]
}

proof fn lemma_marked_word(mark: Seq<u8>, name: Seq<u8>)
    requires
        is_mark(mark),
        is_word(name),
    ensures
        is_word(mark + name),
{
    let x = mark.last();
    lemma_word_behind(x, name);
    if mark.len() == 2 {
        lemma_word_behind(45, seq![x] + name);
        assert(mark + name =~= seq![45u8] + (seq![x] + name));
    } else {
        assert(mark + name =~= seq![x] + name);
    }
}

proof fn lemma_marked_class(mark: Seq<u8>, name: Seq<u8>, year: i32, q: Reading)
    requires
        is_mark(mark),
        is_word(name),
        lower_case(name) == name,
    ensures
        !(classified(mark + name, year) is Text),
        q.with(classified(mark + name, year)) == with_names(q, mark, seq![name]),
{
    reveal(classified);
    let w = mark + name;
    let n = w.len() as int;
    assert(seq![35u8][0] == 35 && seq![64u8][0] == 64);
    assert(seq![35u8].len() == 1 && seq![64u8].len() == 1);
    assert(seq![45u8, 35].len() == 2 && seq![45u8, 64].len() == 2);
    assert(seq![45u8, 35][1] == 35 && seq![45u8, 64][1] == 64);
    if mark.len() == 2 {
        let body = w.subrange(1, n);
        assert(w[0] == 45);
        assert(body[0] == mark[1]);
        assert(body.subrange(1, body.len() as int) =~= name);
    } else {
        assert(w[0] == mark[0]);
        assert(w.subrange(1, n) =~= name);
    }
    assert(q.with(classified(w, year)) =~= with_names(q, mark, seq![name]));
}

proof fn lemma_names_read(
    ws: Seq<Seq<u8>>,
    i: int,
    mark: Seq<u8>,
    names: Seq<Seq<u8>>,
    year: i32,
    q: Reading,
)
    requires
        0 <= i,
        is_mark(mark),
        proper_names(names),
        i + names.len() <= ws.len(),
        ws.subrange(i, (i + names.len()) as int) == marked(mark, names),
    ensures
        read_from(ws, i, year, q) == read_from(
            ws,
            (i + names.len()) as int,
            year,
            with_names(q, mark, names),
        ),
    decreases names.len(),
{
    if names.len() == 0 {
        assert(with_names(q, mark, names) =~= q);
    } else {
        let n = (i + names.len()) as int;
        let rest = names.subrange(1, names.len() as int);
        assert(ws[i] == ws.subrange(i, n)[0]);
        assert(ws[i] == mark + names[0]);
        assert(is_word(names[0]));
        lemma_marked_class(mark, names[0], year, q);
        let next = with_names(q, mark, seq![names[0]]);
        assert forall|k: int| 0 <= k < rest.len() implies is_word(#[trigger] rest[k]) && lower_case(
            rest[k],
        ) == rest[k] by {
            assert(rest[k] == names[k + 1]);
        }
        assert(ws.subrange(i + 1, n) =~= marked(mark, rest)) by {
            assert forall|k: int| 0 <= k < rest.len() implies ws.subrange(i + 1, n)[k] == marked(
                mark,
                rest,
            )[k] by {
                assert(ws[i + 1 + k] == ws.subrange(i, n)[k + 1]);
            }
        }
        lemma_names_read(ws, i + 1, mark, rest, year, next);
        assert(seq![names[0]] + rest =~= names);
        assert(with_names(next, mark, rest) =~= with_names(q, mark, names));
    }
}

proof fn lemma_words_read(
    ws: Seq<Seq<u8>>,
    i: int,
    words: Seq<Seq<u8>>,
    k: int,
    year: i32,
    q: Reading,
)
    requires
        0 <= i,
        0 <= k <= words.len(),
        i + words.len() - k == ws.len(),
        forall|j: int| k <= j < words.len() ==> ws[i + j - k] == #[trigger] words[j],
        plain_words(words, year),
        q.words == words.subrange(0, k),
    ensures
        read_from(ws, i, year, q) == (Reading { words, ..q }),
    decreases words.len() - k,
{
    if k == words.len() {
        assert(words.subrange(0, k) =~= words);
    } else {
        let w = words[k];
        assert(ws[i] == w);
        let next = q.saying(w);
        if k > 0 {
            assert(q.words.last() == words[k - 1]);
            assert(week_read(words[k - 1], words[k - 1 + 1]) is None);
        }
        assert(q.reading(w, year) == next);
        assert(next.words =~= words.subrange(0, k + 1));
        lemma_words_read(ws, i + 1, words, k + 1, year, next);
    }
}

proof fn lemma_marked_words(mark: Seq<u8>, names: Seq<Seq<u8>>)
    requires
        is_mark(mark),
        proper_names(names),
    ensures
        all_words(marked(mark, names)),
{
    let ws = marked(mark, names);
    assert forall|i: int| 0 <= i < ws.len() implies is_word(#[trigger] ws[i]) by {
        assert(is_word(names[i]));
        lemma_marked_word(mark, names[i]);
    }
}

/// A query that a text spells is read back out of what it is written as.
pub proof fn queries_are_read_back(a: AstModel, words: Seq<Seq<u8>>, year: i32)
    requires
        spelled(a, words, year),
    ensures
        query_read(query_text(a), year) == a,
{
    let ws = query_words(a, words);
    let tags = marked(seq![35u8], a.includes.tags);
    let people = marked(seq![64u8], a.includes.people);
    let time = words_of_time(a);
    let no_tags = marked(seq![45u8, 35], a.excludes.tags);
    let no_people = marked(seq![45u8, 64], a.excludes.people);
    lemma_marked_words(seq![35u8], a.includes.tags);
    lemma_marked_words(seq![64u8], a.includes.people);
    lemma_marked_words(seq![45u8, 35], a.excludes.tags);
    lemma_marked_words(seq![45u8, 64], a.excludes.people);
    match a.includes.time {
        Some(t) => {
            lemma_time_words(t, year);
        },
        None => {},
    }
    let n1 = tags.len() as int;
    let n2 = n1 + people.len();
    let n3 = n2 + time.len();
    let n4 = n3 + no_tags.len();
    let n5 = n4 + no_people.len();
    assert(ws =~= tags + people + time + no_tags + no_people + words);
    assert forall|i: int| 0 <= i < ws.len() implies is_word(#[trigger] ws[i]) by {
        if i < n1 {
            assert(ws[i] == tags[i]);
        } else if i < n2 {
            assert(ws[i] == people[i - n1]);
        } else if i < n3 {
            assert(ws[i] == time[i - n2]);
        } else if i < n4 {
            assert(ws[i] == no_tags[i - n3]);
        } else if i < n5 {
            assert(ws[i] == no_people[i - n4]);
        } else {
            assert(ws[i] == words[i - n5]);
        }
    }
    lemma_query_text(a, words);
    joined_words_are_split_again(ws);
    let q0 = Reading::none();
    let q1 = with_names(q0, seq![35u8], a.includes.tags);
    assert(ws.subrange(0, n1) =~= tags);
    lemma_names_read(ws, 0, seq![35u8], a.includes.tags, year, q0);
    let q2 = with_names(q1, seq![64u8], a.includes.people);
    assert(ws.subrange(n1, n2) =~= people);
    lemma_names_read(ws, n1, seq![64u8], a.includes.people, year, q1);
    let q3 = match a.includes.time {
        Some(t) => q2.with(Class::Time(t)),
        None => q2,
    };
    assert(ws.subrange(n2, n3) =~= time);
    match a.includes.time {
        Some(t) => {
            lemma_time_read(ws, n2, t, year, q2);
        },
        None => {},
    }
    let q4 = with_names(q3, seq![45u8, 35], a.excludes.tags);
    assert(ws.subrange(n3, n4) =~= no_tags);
    lemma_names_read(ws, n3, seq![45u8, 35], a.excludes.tags, year, q3);
    let q5 = with_names(q4, seq![45u8, 64], a.excludes.people);
    assert(ws.subrange(n4, n5) =~= no_people);
    lemma_names_read(ws, n4, seq![45u8, 64], a.excludes.people, year, q4);
    assert(ws.subrange(n5, ws.len() as int) =~= words);
    assert forall|j: int| 0 <= j < words.len() implies ws[n5 + j - 0] == #[trigger] words[j] by {}
    assert(q5.words =~= words.subrange(0, 0));
    lemma_words_read(ws, n5, words, 0, year, q5);
    lemma_marks_differ();
    let end = Reading { words, ..q5 };
    assert(end.includes =~= a.includes);
    assert(end.excludes =~= a.excludes);
    assert(end.ast() =~= a);
}

proof fn lemma_marks_differ()
    ensures
        seq![35u8] != seq![64u8],
        seq![45u8, 35] != seq![64u8],
        seq![45u8, 35] != seq![35u8],
        seq![45u8, 64] != seq![64u8],
        seq![45u8, 64] != seq![35u8],
        seq![45u8, 64] != seq![45u8, 35],
{
    assert(seq![35u8][0] == 35);
    assert(seq![64u8][0] == 64);
    assert(seq![45u8, 35][1] == 35);
    assert(seq![45u8, 64][1] == 64);
    assert(seq![45u8, 35].len() == 2);
    assert(seq![45u8, 64].len() == 2);
    assert(seq![35u8].len() == 1);
    assert(seq![64u8].len() == 1);
}

// ---------------------------------------------------------------------------
// What is read
// ---------------------------------------------------------------------------

/// The name that a word gives, if it gives one, is a word in lower case.
pub open spec fn named_properly(c: Class) -> bool {
    match c {
        Class::Tag(_, name) => is_word(name) && lower_case(name) == name,
        Class::Person(_, name) => is_word(name) && lower_case(name) == name,
        _ => true,
    }
}

spec fn settled(q: Reading, year: i32) -> bool {
    &&& plain_words(q.words, year)
    &&& proper_names(q.includes.tags)
    &&& proper_names(q.includes.people)
    &&& proper_names(q.excludes.tags)
    &&& proper_names(q.excludes.people)
    &&& 0 <= year <= 9999 ==> (q.includes.time matches Some(t) ==> plain_time(t))
    &&& q.excludes.time is None
}

proof fn lemma_date_plain(b: Seq<u8>, year: i32)
    requires
        0 <= year <= 9999,
    ensures
        date_read(b, year) matches Some(d) ==> plain_date(d),
{
    if number_read(b, 0, 4) is Some {
        lemma_four_digits(b);
        let s: int = if 0 < 4 && b[0] == 43 {
            1
        } else {
            0
        };
        lemma_decimal(b, s, 4, 4);
    }
}

proof fn lemma_class_plain(w: Seq<u8>, year: i32)
    requires
        0 <= year <= 9999,
    ensures
        classified(w, year) matches Class::Time(t) ==> plain_time(t),
{
    reveal(classified);
    lemma_date_plain(w, year);
    match occurrence(w, seq![46u8, 46], 0) {
        Some(i) => {
            lemma_date_plain(w.subrange(0, i), year);
            lemma_date_plain(w.subrange(i + 2, w.len() as int), year);
        },
        None => {},
    }
}

proof fn lemma_read_settled(ws: Seq<Seq<u8>>, i: int, year: i32, q: Reading)
    requires
        all_words(ws),
        forall|k: int| 0 <= k < ws.len() ==> named_properly(classified(#[trigger] ws[k], year)),
        settled(q, year),
    ensures
        settled(read_from(ws, i, year, q), year),
    decreases ws.len() - i,
{
    if 0 <= i < ws.len() {
        let w = ws[i];
        let c = classified(w, year);
        if 0 <= year <= 9999 {
            lemma_class_plain(w, year);
        }
        let next = q.reading(w, year);
        assert(is_word(w));
        assert(named_properly(classified(ws[i], year)));
        if c is Text {
            assert forall|k: int| 0 <= k < next.words.len() - 1 implies week_read(
                #[trigger] next.words[k],
                next.words[k + 1],
            ) is None by {
                if k + 1 < q.words.len() {
                    assert(week_read(q.words[k], q.words[k + 1]) is None);
                }
            }
            assert(plain_words(next.words, year));
        }
        lemma_read_settled(ws, i + 1, year, next);
    }
}

proof fn lemma_ascii_solid(b: Seq<u8>, p: int)
    requires
        valid_utf8(b),
        is_ascii_bytes(b),
        0 <= p <= b.len(),
    ensures
        solid_end(b, p) == b.len() <==> forall|i: int|
            p <= i < b.len() ==> !white(#[trigger] b[i] as char),
    decreases b.len() - p,
{
    if p < b.len() {
        lemma_ascii_char(b, p);
        lemma_ascii_solid(b, p + 1);
        if white(b[p] as char) {
            assert(solid_end(b, p) == p);
        } else {
            assert(solid_end(b, p) == solid_end(b, p + 1));
        }
    }
}

proof fn lemma_ascii_name(w: Seq<u8>, k: int)
    requires
        is_word(w),
        is_ascii_bytes(w),
        0 < k < w.len(),
    ensures
        ({
            let name = lower_case(w.subrange(k, w.len() as int));
            is_word(name) && lower_case(name) == name
        }),
{
    let x = w.subrange(k, w.len() as int);
    let name = folded(x);
    assert forall|i: int| 0 <= i < x.len() implies #[trigger] x[i] < 128 && name[i] < 128 by {
        assert(w[i + k] < 128);
    }
    assert(lower_case(x) == name);
    let c = Seq::new(name.len(), |i: int| name[i] as char);
    is_ascii_chars_encode_utf8(c);
    assert(utf8(c) =~= name);
    encode_utf8_valid_utf8(c);
    lemma_ascii_solid(w, 0);
    lemma_ascii_solid(name, 0);
    assert forall|i: int| 0 <= i < name.len() implies !white(#[trigger] name[i] as char) by {
        assert(!white(w[i + k] as char));
        assert(name[i] == lower_byte(w[i + k]));
    }
    assert(folded(name) =~= name);
}

proof fn lemma_ascii_class(w: Seq<u8>, year: i32)
    requires
        is_word(w),
        is_ascii_bytes(w),
    ensures
        named_properly(classified(w, year)),
{
    reveal(classified);
    let n = w.len() as int;
    if n > 1 && w[0] == 45 {
        let body = w.subrange(1, n);
        if body.len() > 1 {
            assert(body.subrange(1, body.len() as int) =~= w.subrange(2, n));
            lemma_ascii_name(w, 2);
        }
    } else if n > 1 {
        lemma_ascii_name(w, 1);
    }
}

/// A query that was read, written down and read again is the same: where the names that
/// are not ASCII are words and stay what they are when they are put in lower case again,
/// and the dates, if there are any, are of years that are written with four digits.
pub proof fn queries_stay_the_same_when_written_and_read(b: Seq<u8>, year: i32)
    requires
        valid_utf8(b),
        forall|i: int|
            0 <= i < words_of(b).len() && !is_ascii_bytes(#[trigger] words_of(b)[i])
                ==> named_properly(classified(words_of(b)[i], year)),
        0 <= year <= 9999 || (query_read(b, year).includes.time matches Some(t) ==> plain_time(t)),
    ensures
        query_read(query_text(query_read(b, year)), year) == query_read(b, year),
{
    let ws = words_of(b);
    let q = read_from(ws, 0, year, Reading::none());
    lemma_words_of(b);
    assert forall|k: int| 0 <= k < ws.len() implies named_properly(
        classified(#[trigger] ws[k], year),
    ) by {
        assert(is_word(ws[k]));
        if is_ascii_bytes(ws[k]) {
            lemma_ascii_class(ws[k], year);
        }
    }
    lemma_read_settled(ws, 0, year, Reading::none());
    queries_are_read_back(q.ast(), q.words, year);
}

} // verus!
