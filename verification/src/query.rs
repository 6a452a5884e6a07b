//! The query language: what cells a view shows. Tags (`#tag`), people (`@name`),
//! both with `-` in front to leave cells out, times, and words.
pub mod matching;
pub mod people;
pub mod written;

use vstd::prelude::*;
use vstd::utf8::*;

use crate::text;
use crate::cell::textbox::bytes_of;
use crate::clipboard::lemma_occurrence_is;
use crate::clipboard::html::{first_occurrence, occurrence};
use crate::date::{current_year, date_text, FIRST_YEAR, is_date, LAST_YEAR, Date};
use crate::text::{
    boundary, first_byte, folded, lemma_after_ascii, lemma_ascii_is_boundary, lemma_boundary_ends,
    lemma_first_byte, lemma_utf8_valid, lower_case, utf8, views,
};
use crate::words::{joined, lemma_joined_push, split_words, word_views, words_of};

verus! {

// ---------------------------------------------------------------------------
// Queries
// ---------------------------------------------------------------------------

/// What kind of entity a query names.
#[derive(Clone, Copy, Debug, PartialEq, Eq, Structural)]
pub enum EntityKind {
    Person,
}

/// An entity that a query names, in lower case.
#[derive(Clone, Debug, PartialEq, Eq)]
pub struct EntityRef {
    pub kind: EntityKind,
    pub id: String,
}

/// A time that a query names.
#[derive(Clone, Copy, Debug, PartialEq, Eq, Structural)]
pub enum TimeFilter {
    Today,
    Yesterday,
    LastWeek,
    ThisWeek,
    NextWeek,
    /// One date.
    Day(Date),
    /// From one date to another, both included.
    Range(Date, Date),
}

/// What a query asks for, or leaves out.
#[derive(Clone, Debug, PartialEq, Eq)]
pub struct Filters {
    pub tags: Vec<String>,
    pub entities: Vec<EntityRef>,
    pub time: Option<TimeFilter>,
}

/// A query: what cells must have, what they must not have, and text that they must
/// say.
#[derive(Clone, Debug, PartialEq, Eq)]
pub struct Ast {
    pub includes: Filters,
    pub excludes: Filters,
    pub text: String,
}

/// What a query asks for, or leaves out.
#[verifier::ext_equal]
pub struct FiltersModel {
    pub tags: Seq<Seq<u8>>,
    /// The people named.
    pub people: Seq<Seq<u8>>,
    pub time: Option<TimeFilter>,
}

/// A query.
#[verifier::ext_equal]
pub struct AstModel {
    pub includes: FiltersModel,
    pub excludes: FiltersModel,
    pub text: Seq<u8>,
}

impl View for EntityRef {
    type V = Seq<u8>;

    open spec fn view(&self) -> Seq<u8> {
        utf8(self.id@)
    }
}

impl View for Filters {
    type V = FiltersModel;

    open spec fn view(&self) -> FiltersModel {
        FiltersModel {
            tags: bytes_of(self.tags@),
            people: views(self.entities@),
            time: self.time,
        }
    }
}

impl View for Ast {
    type V = AstModel;

    open spec fn view(&self) -> AstModel {
        AstModel { includes: self.includes@, excludes: self.excludes@, text: utf8(self.text@) }
    }
}

impl FiltersModel {
    /// Nothing asked for.
    pub open spec fn none() -> FiltersModel {
        FiltersModel { tags: Seq::empty(), people: Seq::empty(), time: None }
    }
}

impl Default for Filters {
    fn default() -> (f: Filters)
        ensures
            f@ == FiltersModel::none(),
    {
        let f = Filters { tags: Vec::new(), entities: Vec::new(), time: None };
        assert(f@ =~= FiltersModel::none());
        f
    }
}

impl Default for Ast {
    fn default() -> (a: Ast)
        ensures
            a@ == (AstModel {
                includes: FiltersModel::none(),
                excludes: FiltersModel::none(),
                text: Seq::empty(),
            }),
    {
        let a = Ast {
            includes: Filters::default(),
            excludes: Filters::default(),
            text: String::new(),
        };
        assert(a@.text =~= Seq::empty());
        a
    }
}

impl Filters {
    fn is_empty(&self) -> (r: bool)
        ensures
            r == (self@ == FiltersModel::none()),
    {
        let r: bool = self.tags.len() == 0 && self.entities.len() == 0 && self.time.is_none();
        proof {
            if r {
                assert(self@ =~= FiltersModel::none());
            }
            assert(self@.tags.len() == self.tags@.len());
            assert(self@.people.len() == self.entities@.len());
        }
        r
    }
}

impl Ast {
    /// Whether the query asks for nothing.
    pub fn is_empty(&self) -> (r: bool)
        ensures
            r == (self@ == AstModel {
                includes: FiltersModel::none(),
                excludes: FiltersModel::none(),
                text: Seq::empty(),
            }),
    {
        let r: bool = self.includes.is_empty() && self.excludes.is_empty() && text::len(
            self.text.as_str(),
        ) == 0;
        proof {
            if r {
                assert(self@.text =~= Seq::empty());
            }
        }
        r
    }
}

// ---------------------------------------------------------------------------
// Dates
// ---------------------------------------------------------------------------

/// The number that decimal digits spell.
pub open spec fn decimal(b: Seq<u8>, lo: int, hi: int) -> int
    decreases hi - lo,
{
    if lo >= hi {
        0
    } else {
        decimal(b, lo, hi - 1) * 10 + (b[hi - 1] - 48)
    }
}

/// A decimal digit.
pub open spec fn is_digit(x: u8) -> bool {
    48 <= x <= 57
}

/// The number between `lo` and `hi`: digits, perhaps with a plus sign in front, that
/// spell a number of 32 bits.
pub open spec fn number_read(b: Seq<u8>, lo: int, hi: int) -> Option<int> {
    let s = if lo < hi && b[lo] == 43 {
        lo + 1
    } else {
        lo
    };
    if s < hi && (forall|i: int| s <= i < hi ==> is_digit(#[trigger] b[i])) && decimal(b, s, hi)
        <= u32::MAX {
        Some(decimal(b, s, hi))
    } else {
        None
    }
}

/// The date of a year, a month and a day, where each of them is given and there is
/// such a date.
pub open spec fn date_made(year: Option<int>, month: Option<int>, day: Option<int>) -> Option<
    Date,
> {
    match (year, month, day) {
        (Some(y), Some(m), Some(d)) => if is_date(y, m, d) {
            Some(Date { year: y as i32, month: m as u32, day: d as u32 })
        } else {
            None
        },
        _ => None,
    }
}

/// The date that a text spells: `year-month-day`, the year of four characters, or
/// `month-day`, both of two, in the given year.
pub open spec fn date_read(b: Seq<u8>, year: i32) -> Option<Date> {
    let n = b.len() as int;
    let p = first_byte(b, 45, 0);
    let q = first_byte(b, 45, p + 1);
    if p == 4 && q < n && first_byte(b, 45, q + 1) >= n {
        date_made(number_read(b, 0, 4), number_read(b, 5, q), number_read(b, q + 1, n))
    } else if p == 2 && n == 5 && q >= n {
        date_made(Some(year as int), number_read(b, 0, 2), number_read(b, 3, 5))
    } else {
        None
    }
}

/// Fewer digits spell a smaller number.
pub proof fn lemma_decimal(b: Seq<u8>, lo: int, hi: int, k: int)
    requires
        lo <= k <= hi,
        forall|i: int| lo <= i < hi ==> is_digit(#[trigger] b[i]),
    ensures
        0 <= decimal(b, lo, k) <= decimal(b, lo, hi),
    decreases hi - lo,
{
    if k < hi {
        lemma_decimal(b, lo, hi - 1, k);
        assert(is_digit(b[hi - 1]));
    } else if lo < hi {
        lemma_decimal(b, lo, hi - 1, hi - 1);
        assert(is_digit(b[hi - 1]));
    }
}

fn read_number(s: &str, lo: usize, hi: usize) -> (r: Option<u32>)
    requires
        lo <= hi <= utf8(s@).len(),
    ensures
        (match r {
            Some(n) => Some(n as int),
            None => None,
        }) == number_read(utf8(s@), lo as int, hi as int),
{
    let ghost b = utf8(s@);
    let total: usize = text::len(s);
    let start: usize = if lo < hi && text::byte_at(s, lo) == 43 {
        lo + 1
    } else {
        lo
    };
    if start >= hi {
        return None;
    }
    let mut i: usize = start;
    while i < hi
        invariant
            start <= i <= hi,
            hi <= b.len(),
            b == utf8(s@),
            start < hi,
            start == (if lo < hi && b[lo as int] == 43 {
                lo + 1
            } else {
                lo as int
            }),
            forall|k: int| start <= k < i ==> is_digit(#[trigger] b[k]),
        decreases hi - i,
    {
        let x: u8 = text::byte_at(s, i);
        if x < 48 || x > 57 {
            assert(!is_digit(b[i as int]));
            return None;
        }
        i += 1;
    }
    let mut value: u64 = 0;
    let mut k: usize = start;
    while k < hi
        invariant
            start <= k <= hi,
            hi <= b.len(),
            b == utf8(s@),
            start < hi,
            start == (if lo < hi && b[lo as int] == 43 {
                lo + 1
            } else {
                lo as int
            }),
            forall|j: int| start <= j < hi ==> is_digit(#[trigger] b[j]),
            value == decimal(b, start as int, k as int),
            value <= u32::MAX,
        decreases hi - k,
    {
        let x: u8 = text::byte_at(s, k);
        assert(is_digit(b[k as int]));
        let next: u64 = value * 10 + (x - 48) as u64;
        proof {
            lemma_decimal(b, start as int, hi as int, k + 1);
        }
        if next > u32::MAX as u64 {
            return None;
        }
        value = next;
        k += 1;
    }
    Some(value as u32)
}

fn make_date(year: Option<u32>, month: Option<u32>, day: Option<u32>) -> (d: Option<Date>)
    requires
        year matches Some(y) ==> y <= i32::MAX,
    ensures
        d == date_made(
            match year {
                Some(n) => Some(n as int),
                None => None,
            },
            match month {
                Some(n) => Some(n as int),
                None => None,
            },
            match day {
                Some(n) => Some(n as int),
                None => None,
            },
        ),
{
    match (year, month, day) {
        (Some(y), Some(m), Some(d)) => Date::from_ymd_opt(y as i32, m, d),
        _ => None,
    }
}

/// Four characters spell no number of more digits.
pub proof fn lemma_four_digits(b: Seq<u8>)
    requires
        number_read(b, 0, 4) is Some,
    ensures
        number_read(b, 0, 4)->0 <= 9999,
{
    let s: int = if b[0] == 43 {
        1
    } else {
        0
    };
    assert(is_digit(b[1]) && is_digit(b[2]) && is_digit(b[3]));
    reveal_with_fuel(decimal, 5);
}

/// The date that a text spells, `month-day` in the given year.
pub fn parse_date_in(s: &str, year: i32) -> (d: Option<Date>)
    ensures
        d == date_read(utf8(s@), year),
{
    let ghost b = utf8(s@);
    let n: usize = text::len(s);
    let p: usize = text::find_byte(s, 45, 0);
    proof {
        lemma_first_byte(b, 45, 0);
    }
    if p >= n {
        return None;
    }
    let q: usize = text::find_byte(s, 45, p + 1);
    proof {
        lemma_first_byte(b, 45, p + 1);
    }
    if p == 4 && q < n {
        if text::find_byte(s, 45, q + 1) < n {
            return None;
        }
        let y = read_number(s, 0, 4);
        proof {
            if y is Some {
                lemma_four_digits(b);
            }
        }
        return make_date(y, read_number(s, 5, q), read_number(s, q + 1, n));
    }
    if p == 2 && n == 5 && q >= n {
        return match (read_number(s, 0, 2), read_number(s, 3, 5)) {
            (Some(m), Some(d)) => Date::from_ymd_opt(year, m, d),
            _ => None,
        };
    }
    None
}

/// The date that a text spells, `month-day` in the current year.
pub fn parse_date(s: &str) -> (d: Option<Date>)
    ensures
        exists|year: i32|
            FIRST_YEAR <= year <= LAST_YEAR && d == #[trigger] date_read(utf8(s@), year),
{
    let year: i32 = current_year();
    parse_date_in(s, year)
}

// ---------------------------------------------------------------------------
// Reading queries
// ---------------------------------------------------------------------------

/// What a word of a query is.
#[verifier::ext_equal]
pub enum Class {
    /// A tag, left out where it is negated.
    Tag(bool, Seq<u8>),
    /// A person, left out where it is negated.
    Person(bool, Seq<u8>),
    Time(TimeFilter),
    /// No more than a word.
    Text,
}

/// The time that `..` between two dates names.
pub open spec fn range_read(w: Seq<u8>, year: i32) -> Option<TimeFilter> {
    match occurrence(w, seq![46u8, 46], 0) {
        Some(i) => match (
            date_read(w.subrange(0, i), year),
            date_read(w.subrange(i + 2, w.len() as int), year),
        ) {
            (Some(a), Some(b)) => Some(TimeFilter::Range(a, b)),
            _ => None,
        },
        None => None,
    }
}

/// The time that a word names.
pub open spec fn time_read(w: Seq<u8>, year: i32) -> Option<TimeFilter> {
    if w == utf8("today"@) {
        Some(TimeFilter::Today)
    } else if w == utf8("yesterday"@) {
        Some(TimeFilter::Yesterday)
    } else if range_read(w, year) is Some {
        range_read(w, year)
    } else {
        match date_read(w, year) {
            Some(d) => Some(TimeFilter::Day(d)),
            None => None,
        }
    }
}

/// What a word is.
#[verifier::opaque]
pub open spec fn classified(w: Seq<u8>, year: i32) -> Class {
    let n = w.len() as int;
    let negated = n > 1 && w[0] == 45;
    let body = if negated {
        w.subrange(1, n)
    } else {
        w
    };
    if body.len() > 1 && body[0] == 35 {
        Class::Tag(negated, lower_case(body.subrange(1, body.len() as int)))
    } else if body.len() > 1 && body[0] == 64 {
        Class::Person(negated, lower_case(body.subrange(1, body.len() as int)))
    } else if negated || body.len() > 0 && (body[0] == 35 || body[0] == 64 || body[0] == 37) {
        Class::Text
    } else {
        match time_read(w, year) {
            Some(t) => Class::Time(t),
            None => Class::Text,
        }
    }
}

/// The week that two words name, letter case aside.
pub open spec fn week_read(a: Seq<u8>, b: Seq<u8>) -> Option<TimeFilter> {
    if folded(b) != utf8("week"@) {
        None
    } else if folded(a) == utf8("last"@) {
        Some(TimeFilter::LastWeek)
    } else if folded(a) == utf8("this"@) {
        Some(TimeFilter::ThisWeek)
    } else if folded(a) == utf8("next"@) {
        Some(TimeFilter::NextWeek)
    } else {
        None
    }
}

/// What is read of a query so far: the words that are no more than that are kept
/// apart.
#[verifier::ext_equal]
pub struct Reading {
    pub includes: FiltersModel,
    pub excludes: FiltersModel,
    pub words: Seq<Seq<u8>>,
}

impl Reading {
    /// Nothing read.
    pub open spec fn none() -> Reading {
        Reading {
            includes: FiltersModel::none(),
            excludes: FiltersModel::none(),
            words: Seq::empty(),
        }
    }

    /// With a word read.
    pub open spec fn with(self, c: Class) -> Reading {
        match c {
            Class::Tag(false, name) => Reading {
                includes: FiltersModel { tags: self.includes.tags.push(name), ..self.includes },
                ..self
            },
            Class::Tag(true, name) => Reading {
                excludes: FiltersModel { tags: self.excludes.tags.push(name), ..self.excludes },
                ..self
            },
            Class::Person(false, id) => Reading {
                includes: FiltersModel { people: self.includes.people.push(id), ..self.includes },
                ..self
            },
            Class::Person(true, id) => Reading {
                excludes: FiltersModel { people: self.excludes.people.push(id), ..self.excludes },
                ..self
            },
            Class::Time(t) => Reading {
                includes: FiltersModel { time: Some(t), ..self.includes },
                ..self
            },
            Class::Text => self,
        }
    }

    /// With a word that is no more than that.
    pub open spec fn saying(self, w: Seq<u8>) -> Reading {
        Reading { words: self.words.push(w), ..self }
    }

    /// With a word read in its place: a word that is no more than that, and names a week
    /// with the last one that was none either, takes that one with it.
    pub open spec fn reading(self, w: Seq<u8>, year: i32) -> Reading {
        let c = classified(w, year);
        if !(c is Text) {
            self.with(c)
        } else if self.words.len() > 0 && week_read(self.words.last(), w) is Some {
            Reading {
                words: self.words.drop_last(),
                ..self.with(Class::Time(week_read(self.words.last(), w)->0))
            }
        } else {
            self.saying(w)
        }
    }

    /// The query.
    pub open spec fn ast(self) -> AstModel {
        AstModel { includes: self.includes, excludes: self.excludes, text: joined(self.words) }
    }
}

/// The words from `i` on read. A later time takes the place of an earlier one. What
/// else stands between the two words of a week does not part them.
pub open spec fn read_from(ws: Seq<Seq<u8>>, i: int, year: i32, q: Reading) -> Reading
    decreases ws.len() - i,
{
    if i < 0 || i >= ws.len() {
        q
    } else {
        read_from(ws, i + 1, year, q.reading(ws[i], year))
    }
}

/// The query that a text spells, dates without a year in the given one.
pub open spec fn query_read(b: Seq<u8>, year: i32) -> AstModel {
    read_from(words_of(b), 0, year, Reading::none()).ast()
}

fn read_time(w: &str, year: i32) -> (t: Option<TimeFilter>)
    ensures
        t == time_read(utf8(w@), year),
{
    let ghost b = utf8(w@);
    if text::same(w, "today") {
        return Some(TimeFilter::Today);
    }
    if text::same(w, "yesterday") {
        return Some(TimeFilter::Yesterday);
    }
    proof {
        reveal_strlit("..");
        is_ascii_chars_encode_utf8(".."@);
        assert(utf8(".."@) =~= seq![46u8, 46]);
        lemma_utf8_valid(w@);
        lemma_boundary_ends(b);
    }
    if let Some(i) = first_occurrence(w, "..") {
        let n: usize = text::len(w);
        proof {
            lemma_occurrence_is(b, seq![46u8, 46], 0);
            assert(b.subrange(i as int, i + 2)[0] == b[i as int]);
            assert(b.subrange(i as int, i + 2)[1] == b[i + 1]);
            lemma_ascii_is_boundary(b, i as int);
            lemma_after_ascii(b, i + 1);
        }
        if let (Some(from), Some(to)) = (
            parse_date_in(text::slice(w, 0, i), year),
            parse_date_in(text::slice(w, i + 2, n), year),
        ) {
            return Some(TimeFilter::Range(from, to));
        }
    }
    match parse_date_in(w, year) {
        Some(d) => Some(TimeFilter::Day(d)),
        None => None,
    }
}

fn read_week(a: &str, b: &str) -> (t: Option<TimeFilter>)
    ensures
        t == week_read(utf8(a@), utf8(b@)),
{
    proof {
        lemma_week_words();
    }
    if !text::same_folded(b, "week") {
        return None;
    }
    if text::same_folded(a, "last") {
        Some(TimeFilter::LastWeek)
    } else if text::same_folded(a, "this") {
        Some(TimeFilter::ThisWeek)
    } else if text::same_folded(a, "next") {
        Some(TimeFilter::NextWeek)
    } else {
        None
    }
}

/// The words that name a week.
pub proof fn lemma_week_words()
    ensures
        utf8("week"@) == seq![119u8, 101, 101, 107],
        utf8("last"@) == seq![108u8, 97, 115, 116],
        utf8("this"@) == seq![116u8, 104, 105, 115],
        utf8("next"@) == seq![110u8, 101, 120, 116],
        folded(utf8("week"@)) == utf8("week"@),
        folded(utf8("last"@)) == utf8("last"@),
        folded(utf8("this"@)) == utf8("this"@),
        folded(utf8("next"@)) == utf8("next"@),
{
    reveal_strlit("week");
    reveal_strlit("last");
    reveal_strlit("this");
    reveal_strlit("next");
    is_ascii_chars_encode_utf8("week"@);
    is_ascii_chars_encode_utf8("last"@);
    is_ascii_chars_encode_utf8("this"@);
    is_ascii_chars_encode_utf8("next"@);
    assert(utf8("week"@) =~= seq![119u8, 101, 101, 107]);
    assert(utf8("last"@) =~= seq![108u8, 97, 115, 116]);
    assert(utf8("this"@) =~= seq![116u8, 104, 105, 115]);
    assert(utf8("next"@) =~= seq![110u8, 101, 120, 116]);
    assert(folded(utf8("week"@)) =~= utf8("week"@));
    assert(folded(utf8("last"@)) =~= utf8("last"@));
    assert(folded(utf8("this"@)) =~= utf8("this"@));
    assert(folded(utf8("next"@)) =~= utf8("next"@));
}

/// What is read of a query so far.
pub open spec fn reading_of(ast: Ast, words: Seq<String>) -> Reading {
    Reading { includes: ast.includes@, excludes: ast.excludes@, words: bytes_of(words) }
}

fn push_name(names: &mut Vec<String>, name: String)
    ensures
        bytes_of(final(names)@) == bytes_of(old(names)@).push(utf8(name@)),
{
    let ghost prev = names@;
    names.push(name);
    assert(bytes_of(names@) =~= bytes_of(prev).push(utf8(name@)));
}

fn push_person(people: &mut Vec<EntityRef>, id: String)
    ensures
        views(final(people)@) == views(old(people)@).push(utf8(id@)),
{
    let ghost prev = people@;
    people.push(EntityRef { kind: EntityKind::Person, id });
    assert(views(people@) =~= views(prev).push(utf8(id@)));
}

/// Reads one word into a query. Returns whether it was more than a word.
fn classify_structured(w: &str, year: i32, ast: &mut Ast) -> (r: bool)
    requires
        utf8(w@).len() > 0,
    ensures
        ({
            let c = classified(utf8(w@), year);
            r == !(c is Text) && reading_of(*final(ast), Seq::empty()) == reading_of(
                *old(ast),
                Seq::empty(),
            ).with(c)
        }),
        final(ast).text == old(ast).text,
{
    let ghost b = utf8(w@);
    let n: usize = text::len(w);
    proof {
        reveal(classified);
        lemma_utf8_valid(w@);
        lemma_boundary_ends(b);
    }
    let negated: bool = n > 1 && text::byte_at(w, 0) == 45;
    let lo: usize = if negated {
        1
    } else {
        0
    };
    let ghost body = b.subrange(lo as int, n as int);
    let x: u8 = text::byte_at(w, lo);
    assert(body[0] == x);
    if x == 35 || x == 64 {
        if n - lo == 1 {
            return false;
        }
        proof {
            lemma_after_ascii(b, lo as int);
            assert(body.subrange(1, body.len() as int) =~= b.subrange(lo + 1, n as int));
            if !negated {
                assert(body =~= b);
            }
        }
        let name = text::to_lowercase(text::slice(w, lo + 1, n));
        if x == 35 {
            if negated {
                push_name(&mut ast.excludes.tags, name);
            } else {
                push_name(&mut ast.includes.tags, name);
            }
        } else {
            if negated {
                push_person(&mut ast.excludes.entities, name);
            } else {
                push_person(&mut ast.includes.entities, name);
            }
        }
        return true;
    }
    if negated || x == 37 {
        return false;
    }
    match read_time(w, year) {
        Some(t) => {
            ast.includes.time = Some(t);
            true
        },
        None => false,
    }
}

/// The query that a text spells, dates without a year in the given one.
pub fn parse_in(input: &str, year: i32) -> (ast: Ast)
    ensures
        ast@ == query_read(utf8(input@), year),
{
    let ghost b = utf8(input@);
    let ghost ws = words_of(b);
    let spans = split_words(input);
    let mut ast = Ast::default();
    let mut words: Vec<String> = Vec::new();
    let mut i: usize = 0;
    let n: usize = spans.len();
    assert(reading_of(ast, words@) =~= Reading::none());
    while i < n
        invariant
            i <= n,
            n == spans@.len(),
            b == utf8(input@),
            ws == words_of(b),
            word_views(b, spans@) == ws,
            forall|k: int|
                0 <= k < spans@.len() ==> (#[trigger] spans@[k]).0 < spans@[k].1 && spans@[k].1
                    <= b.len() && boundary(b, spans@[k].0 as int) && boundary(
                    b,
                    spans@[k].1 as int,
                ),
            read_from(ws, 0, year, Reading::none()) == read_from(
                ws,
                i as int,
                year,
                reading_of(ast, words@),
            ),
        decreases n - i,
    {
        let (lo, hi) = spans[i];
        assert(ws[i as int] == word_views(b, spans@)[i as int]);
        let w = text::slice(input, lo, hi);
        let ghost before = reading_of(ast, words@);
        let ghost c = classified(ws[i as int], year);
        if classify_structured(w, year, &mut ast) {
            assert(reading_of(ast, words@) =~= before.with(c));
        } else {
            assert(reading_of(ast, words@) =~= before);
            let mut week: Option<TimeFilter> = None;
            if words.len() > 0 {
                assert(before.words.last() == utf8(words@.last()@));
                week = read_week(words[words.len() - 1].as_str(), w);
            }
            match week {
                Some(t) => {
                    ast.includes.time = Some(t);
                    words.pop();
                    assert(bytes_of(words@) =~= before.words.drop_last());
                    assert(reading_of(ast, words@) =~= before.reading(ws[i as int], year));
                },
                None => {
                    push_name(&mut words, text::copy(w));
                    assert(reading_of(ast, words@) =~= before.reading(ws[i as int], year));
                },
            }
        }
        i += 1;
    }
    ast.text = join_words(&words);
    ast
}

/// The query that a text spells, dates without a year in the current one.
pub fn parse(input: &str) -> (ast: Ast)
    ensures
        exists|year: i32|
            FIRST_YEAR <= year <= LAST_YEAR && ast@ == #[trigger] query_read(utf8(input@), year),
{
    let year: i32 = current_year();
    parse_in(input, year)
}

/// Puts words together, one space between them.
pub fn join_words(words: &Vec<String>) -> (s: String)
    ensures
        utf8(s@) == joined(bytes_of(words@)),
{
    let ghost ws = bytes_of(words@);
    let mut out = String::new();
    proof {
        assert(utf8(out@) =~= Seq::<u8>::empty());
        reveal_strlit(" ");
        is_ascii_chars_encode_utf8(" "@);
        assert(utf8(" "@) =~= seq![32u8]);
        assert(ws.subrange(0, 0) =~= Seq::empty());
    }
    let mut i: usize = 0;
    while i < words.len()
        invariant
            i <= words.len(),
            ws == bytes_of(words@),
            utf8(" "@) == seq![32u8],
            utf8(out@) == joined(ws.subrange(0, i as int)),
        decreases words.len() - i,
    {
        let ghost before = ws.subrange(0, i as int);
        let ghost w = ws[i as int];
        assert(w == utf8(words@[i as int]@));
        if i > 0 {
            text::push_str(&mut out, " ");
        }
        text::push_str(&mut out, words[i].as_str());
        proof {
            assert(ws.subrange(0, i + 1) =~= before.push(w));
            if i > 0 {
                lemma_joined_push(before, w);
            } else {
                assert(before.push(w) =~= seq![w]);
                assert(utf8(out@) =~= w);
            }
        }
        i += 1;
    }
    assert(ws.subrange(0, i as int) =~= ws);
    out
}

// ---------------------------------------------------------------------------
// Writing queries
// ---------------------------------------------------------------------------

/// A time as it is written in a query.
pub open spec fn time_text(t: TimeFilter) -> Seq<u8> {
    match t {
        TimeFilter::Today => utf8("today"@),
        TimeFilter::Yesterday => utf8("yesterday"@),
        TimeFilter::LastWeek => utf8("last week"@),
        TimeFilter::ThisWeek => utf8("this week"@),
        TimeFilter::NextWeek => utf8("next week"@),
        TimeFilter::Day(d) => date_text(d),
        TimeFilter::Range(a, b) => date_text(a) + utf8(".."@) + date_text(b),
    }
}

/// Names, each behind `mark`.
pub open spec fn marked(mark: Seq<u8>, names: Seq<Seq<u8>>) -> Seq<Seq<u8>> {
    Seq::new(names.len(), |i: int| mark + names[i])
}

/// The parts of a query as they are written.
pub open spec fn query_parts(a: AstModel) -> Seq<Seq<u8>> {
    marked(seq![35u8], a.includes.tags) + marked(seq![64u8], a.includes.people) + (
    match a.includes.time {
        Some(t) => seq![time_text(t)],
        None => Seq::empty(),
    }) + marked(seq![45u8, 35], a.excludes.tags) + marked(seq![45u8, 64], a.excludes.people) + (
    if a.text.len() > 0 {
        seq![a.text]
    } else {
        Seq::empty()
    })
}

/// A query as it is written.
pub open spec fn query_text(a: AstModel) -> Seq<u8> {
    joined(query_parts(a))
}

/// The dates of a time exist.
pub open spec fn time_wf(t: TimeFilter) -> bool {
    match t {
        TimeFilter::Day(d) => d.wf(),
        TimeFilter::Range(a, b) => a.wf() && b.wf(),
        _ => true,
    }
}

fn time_to_text(t: &TimeFilter) -> (s: String)
    requires
        time_wf(*t),
    ensures
        utf8(s@) == time_text(*t),
{
    match t {
        TimeFilter::Today => text::copy("today"),
        TimeFilter::Yesterday => text::copy("yesterday"),
        TimeFilter::LastWeek => text::copy("last week"),
        TimeFilter::ThisWeek => text::copy("this week"),
        TimeFilter::NextWeek => text::copy("next week"),
        TimeFilter::Day(d) => d.to_iso(),
        TimeFilter::Range(a, b) => {
            let mut out = a.to_iso();
            let to = b.to_iso();
            text::push_str(&mut out, "..");
            text::push_str(&mut out, to.as_str());
            out
        },
    }
}

fn push_marked(parts: &mut Vec<String>, mark: &str, name: &str)
    ensures
        bytes_of(final(parts)@) == bytes_of(old(parts)@).push(utf8(mark@) + utf8(name@)),
{
    let mut s = text::copy(mark);
    text::push_str(&mut s, name);
    push_name(parts, s);
}

fn push_tags(parts: &mut Vec<String>, mark: &str, names: &Vec<String>)
    ensures
        bytes_of(final(parts)@) == bytes_of(old(parts)@) + marked(
            utf8(mark@),
            bytes_of(names@),
        ),
{
    let ghost start = bytes_of(parts@);
    let ghost all = marked(utf8(mark@), bytes_of(names@));
    let mut i: usize = 0;
    assert(all.subrange(0, 0) =~= Seq::empty());
    assert(start + all.subrange(0, 0) =~= start);
    while i < names.len()
        invariant
            i <= names.len(),
            all == marked(utf8(mark@), bytes_of(names@)),
            bytes_of(parts@) == start + all.subrange(0, i as int),
        decreases names.len() - i,
    {
        push_marked(parts, mark, names[i].as_str());
        assert(all[i as int] == utf8(mark@) + utf8(names@[i as int]@));
        assert(bytes_of(parts@) =~= start + all.subrange(0, i + 1));
        i += 1;
    }
    assert(all.subrange(0, i as int) =~= all);
}

fn push_people(parts: &mut Vec<String>, mark: &str, people: &Vec<EntityRef>)
    ensures
        bytes_of(final(parts)@) == bytes_of(old(parts)@) + marked(utf8(mark@), views(people@)),
{
    let ghost start = bytes_of(parts@);
    let ghost all = marked(utf8(mark@), views(people@));
    let mut i: usize = 0;
    assert(all.subrange(0, 0) =~= Seq::empty());
    assert(start + all.subrange(0, 0) =~= start);
    while i < people.len()
        invariant
            i <= people.len(),
            all == marked(utf8(mark@), views(people@)),
            bytes_of(parts@) == start + all.subrange(0, i as int),
        decreases people.len() - i,
    {
        push_marked(parts, mark, people[i].id.as_str());
        assert(all[i as int] == utf8(mark@) + people@[i as int]@);
        assert(bytes_of(parts@) =~= start + all.subrange(0, i + 1));
        i += 1;
    }
    assert(all.subrange(0, i as int) =~= all);
}

proof fn lemma_marks()
    ensures
        utf8("#"@) == seq![35u8],
        utf8("@"@) == seq![64u8],
        utf8("-#"@) == seq![45u8, 35],
        utf8("-@"@) == seq![45u8, 64],
{
    reveal_strlit("#");
    reveal_strlit("@");
    reveal_strlit("-#");
    reveal_strlit("-@");
    is_ascii_chars_encode_utf8("#"@);
    is_ascii_chars_encode_utf8("@"@);
    is_ascii_chars_encode_utf8("-#"@);
    is_ascii_chars_encode_utf8("-@"@);
    assert(utf8("#"@) =~= seq![35u8]);
    assert(utf8("@"@) =~= seq![64u8]);
    assert(utf8("-#"@) =~= seq![45u8, 35]);
    assert(utf8("-@"@) =~= seq![45u8, 64]);
}

/// The query as it is written.
pub fn to_text(ast: &Ast) -> (s: String)
    requires
        ast@.includes.time matches Some(t) ==> time_wf(t),
    ensures
        utf8(s@) == query_text(ast@),
{
    let mut parts: Vec<String> = Vec::new();
    proof {
        lemma_marks();
        assert(bytes_of(parts@) =~= Seq::empty());
    }
    push_tags(&mut parts, "#", &ast.includes.tags);
    push_people(&mut parts, "@", &ast.includes.entities);
    if let Some(t) = &ast.includes.time {
        push_name(&mut parts, time_to_text(t));
    }
    push_tags(&mut parts, "-#", &ast.excludes.tags);
    push_people(&mut parts, "-@", &ast.excludes.entities);
    if text::len(ast.text.as_str()) > 0 {
        push_name(&mut parts, text::copy(ast.text.as_str()));
    }
    assert(bytes_of(parts@) =~= query_parts(ast@));
    join_words(&parts)
}

} // verus!
