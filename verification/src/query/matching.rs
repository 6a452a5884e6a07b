//! Which cells a query finds, and whom it means.
use vstd::prelude::*;
use vstd::utf8::*;

use crate::text;
use crate::cell::{Cell, CellModel};
use crate::cell::textbox::bytes_of;
use crate::cell::wrap::{lemma_next_boundary, next_boundary, next_char_boundary};
use crate::date::{
    dates_are_numbered_in_order, is_before, lemma_number_bounds, local_date_for_ms, may_be_dated,
    moment_settled, shifted_dates_are_that_far_away, Date,
};
use crate::ids::{parse_id, uuid_spelled, Uuid};
use crate::query::{Ast, AstModel, EntityRef, FiltersModel, TimeFilter};
use crate::text::{
    boundary, char_at, folded, lemma_after_ascii, lemma_boundary_ends, lemma_slice_valid,
    lemma_utf8_valid, lower_byte, lower_case, occurs_at, starts_with_bytes, utf8, views, white,
};
use crate::words::{lemma_ascii_char, lemma_part};

verus! {

// ---------------------------------------------------------------------------
// Times
// ---------------------------------------------------------------------------

/// The days that a time names: from the first, up to the second, which is not
/// among them.
pub open spec fn resolved(t: TimeFilter, today: Date) -> (Date, Date) {
    let monday = today.shifted(-today.weekday_model());
    match t {
        TimeFilter::Today => (today, today.shifted(1)),
        TimeFilter::Yesterday => (today.shifted(-1), today),
        TimeFilter::Day(d) => (d, d.shifted(1)),
        TimeFilter::Range(a, b) => (a, b.shifted(1)),
        TimeFilter::ThisWeek => (monday, monday.shifted(7)),
        TimeFilter::LastWeek => (monday.shifted(-7), monday.shifted(-7).shifted(7)),
        TimeFilter::NextWeek => (monday.shifted(7), monday.shifted(7).shifted(7)),
    }
}

/// All the dates that it takes to tell the days that a time names are in the calendar.
pub open spec fn time_settled(t: TimeFilter, today: Date) -> bool {
    let back = today.weekday_model();
    match t {
        TimeFilter::Today => today.reaches(1),
        TimeFilter::Yesterday => today.reaches(-1),
        TimeFilter::Day(d) => d.reaches(1),
        TimeFilter::Range(a, b) => a.wf() && b.reaches(1),
        TimeFilter::ThisWeek => today.reaches(-back) && today.reaches(7 - back),
        TimeFilter::LastWeek => today.reaches(-back) && today.reaches(-7 - back),
        TimeFilter::NextWeek => today.reaches(-back) && today.reaches(14 - back),
    }
}

/// The days that a time names. There is one at least, but in a range that ends
/// before it starts.
pub fn resolve_time(t: &TimeFilter, today: Date) -> (r: (Date, Date))
    requires
        time_settled(*t, today),
    ensures
        r == resolved(*t, today),
        match *t {
            TimeFilter::Range(a, b) => !is_before(b, a) ==> is_before(r.0, r.1),
            _ => is_before(r.0, r.1),
        },
{
    let r = days_named(t, today);
    proof {
        dates_are_numbered_in_order(r.0, r.1);
        if let TimeFilter::Range(a, b) = *t {
            dates_are_numbered_in_order(b, a);
        }
    }
    r
}

fn days_named(t: &TimeFilter, today: Date) -> (r: (Date, Date))
    requires
        time_settled(*t, today),
    ensures
        r == resolved(*t, today),
        r.0.wf(),
        r.1.wf(),
        match *t {
            TimeFilter::Range(a, b) => r.0 == a && r.1.number() == b.number() + 1,
            _ => r.0.number() < r.1.number(),
        },
{
    proof {
        if today.wf() {
            lemma_number_bounds(today);
        }
    }
    match t {
        TimeFilter::Today => (today, today.plus(1)),
        TimeFilter::Yesterday => (today.plus(-1), today),
        TimeFilter::Day(d) => (*d, d.plus(1)),
        TimeFilter::Range(a, b) => (*a, b.plus(1)),
        TimeFilter::ThisWeek => {
            let start = monday_of(today);
            (start, start.plus(7))
        },
        TimeFilter::LastWeek => {
            let start = monday_of(today).plus(-7);
            (start, start.plus(7))
        },
        TimeFilter::NextWeek => {
            let start = monday_of(today).plus(7);
            (start, start.plus(7))
        },
    }
}

fn monday_of(d: Date) -> (m: Date)
    requires
        d.reaches(-d.weekday_model()),
    ensures
        m == d.shifted(-d.weekday_model()),
        m.wf(),
        m.number() == d.number() - d.weekday_model(),
{
    let n: u32 = d.weekday();
    d.plus(-(n as i64))
}

// ---------------------------------------------------------------------------
// Cells
// ---------------------------------------------------------------------------

/// What a query needs to know besides: today, and the people it means.
pub struct MatchContext {
    pub today: Date,
    pub person_targets: Vec<Uuid>,
    pub person_excludes: Vec<Uuid>,
}

/// What an address of the form `kept://id` leads to.
pub open spec fn kept_id(url: Seq<u8>) -> Option<Uuid> {
    if starts_with_bytes(url, utf8("kept://"@)) {
        uuid_spelled(decode_utf8(url.subrange(7, url.len() as int)))
    } else {
        None
    }
}

/// One of the addresses leads to one of `ids`.
pub open spec fn leads_to(urls: Seq<Seq<u8>>, ids: Seq<Uuid>) -> bool {
    exists|i: int, j: int|
        #![trigger urls[i], ids[j]]
        0 <= i < urls.len() && 0 <= j < ids.len() && kept_id(urls[i]) == Some(ids[j])
}

/// The tag is among `tags`, letter case aside.
pub open spec fn has_tag(tags: Seq<Seq<u8>>, name: Seq<u8>) -> bool {
    exists|i: int| 0 <= i < tags.len() && folded(#[trigger] tags[i]) == folded(name)
}

/// A cell of that date is one that the query asks for: on the days named, with
/// every tag named and none of those left out, with a link to someone asked for and
/// to none of those left out, and with the words.
pub open spec fn matched(
    a: AstModel,
    m: CellModel,
    today: Date,
    targets: Seq<Uuid>,
    excludes: Seq<Uuid>,
    date: Date,
) -> bool {
    let tags = m.heading_tags();
    &&& a.includes.time matches Some(t) ==> {
        let days = resolved(t, today);
        !is_before(date, days.0) && is_before(date, days.1)
    }
    &&& forall|i: int|
        0 <= i < a.includes.tags.len() ==> has_tag(tags, #[trigger] a.includes.tags[i])
    &&& forall|i: int|
        0 <= i < a.excludes.tags.len() ==> !has_tag(tags, #[trigger] a.excludes.tags[i])
    &&& targets.len() > 0 ==> leads_to(m.urls(), targets)
    &&& !leads_to(m.urls(), excludes)
    &&& a.text.len() > 0 ==> exists|j: int| occurs_at(lower_case(m.full()), lower_case(a.text), j)
}

/// Where an address of the form `kept://id` leads to.
pub fn parse_kept_entity_url(url: &str) -> (id: Option<Uuid>)
    ensures
        id == kept_id(utf8(url@)),
{
    let ghost b = utf8(url@);
    proof {
        reveal_strlit("kept://");
        is_ascii_chars_encode_utf8("kept://"@);
        lemma_utf8_valid(url@);
        lemma_boundary_ends(b);
    }
    if text::starts_with(url, "kept://") {
        proof {
            assert(b.subrange(0, 7)[6] == b[6]);
            assert(utf8("kept://"@)[6] == 47);
            lemma_after_ascii(b, 6);
        }
        let rest = text::suffix(url, 7);
        proof {
            encode_utf8_decode_utf8(rest@);
        }
        parse_id(rest)
    } else {
        None
    }
}

fn any_leads_to(urls: &Vec<String>, ids: &Vec<Uuid>) -> (r: bool)
    ensures
        r == leads_to(bytes_of(urls@), ids@),
{
    let ghost us = bytes_of(urls@);
    let mut i: usize = 0;
    while i < urls.len()
        invariant
            i <= urls.len(),
            us == bytes_of(urls@),
            forall|k: int, j: int|
                #![trigger us[k], ids@[j]]
                0 <= k < i && 0 <= j < ids@.len() ==> kept_id(us[k]) != Some(ids@[j]),
        decreases urls.len() - i,
    {
        assert(us[i as int] == utf8(urls@[i as int]@));
        if let Some(id) = parse_kept_entity_url(urls[i].as_str()) {
            let mut j: usize = 0;
            while j < ids.len()
                invariant
                    i < urls.len(),
                    j <= ids.len(),
                    us == bytes_of(urls@),
                    kept_id(us[i as int]) == Some(id),
                    forall|k: int| 0 <= k < j ==> id != #[trigger] ids@[k],
                decreases ids.len() - j,
            {
                if ids[j] == id {
                    assert(kept_id(us[i as int]) == Some(ids@[j as int]));
                    return true;
                }
                j += 1;
            }
        }
        i += 1;
    }
    false
}

fn is_tagged(tags: &Vec<String>, name: &str) -> (r: bool)
    ensures
        r == has_tag(bytes_of(tags@), utf8(name@)),
{
    let ghost ts = bytes_of(tags@);
    let mut i: usize = 0;
    while i < tags.len()
        invariant
            i <= tags.len(),
            ts == bytes_of(tags@),
            forall|k: int| 0 <= k < i ==> folded(#[trigger] ts[k]) != folded(utf8(name@)),
        decreases tags.len() - i,
    {
        assert(ts[i as int] == utf8(tags@[i as int]@));
        if text::same_folded(tags[i].as_str(), name) {
            return true;
        }
        i += 1;
    }
    false
}

fn tags_match(ast: &Ast, tags: &Vec<String>) -> (r: bool)
    ensures
        r == ((forall|i: int|
            0 <= i < ast@.includes.tags.len() ==> has_tag(
                bytes_of(tags@),
                #[trigger] ast@.includes.tags[i],
            )) && (forall|i: int|
            0 <= i < ast@.excludes.tags.len() ==> !has_tag(
                bytes_of(tags@),
                #[trigger] ast@.excludes.tags[i],
            ))),
{
    let ghost ts = bytes_of(tags@);
    let ghost a = ast@;
    let mut i: usize = 0;
    while i < ast.includes.tags.len()
        invariant
            i <= ast.includes.tags.len(),
            a == ast@,
            ts == bytes_of(tags@),
            forall|k: int| 0 <= k < i ==> has_tag(ts, #[trigger] a.includes.tags[k]),
        decreases ast.includes.tags.len() - i,
    {
        assert(a.includes.tags[i as int] == utf8(ast.includes.tags@[i as int]@));
        if !is_tagged(tags, ast.includes.tags[i].as_str()) {
            return false;
        }
        i += 1;
    }
    let mut j: usize = 0;
    while j < ast.excludes.tags.len()
        invariant
            j <= ast.excludes.tags.len(),
            a == ast@,
            ts == bytes_of(tags@),
            forall|k: int| 0 <= k < j ==> !has_tag(ts, #[trigger] a.excludes.tags[k]),
        decreases ast.excludes.tags.len() - j,
    {
        assert(a.excludes.tags[j as int] == utf8(ast.excludes.tags@[j as int]@));
        if is_tagged(tags, ast.excludes.tags[j].as_str()) {
            return false;
        }
        j += 1;
    }
    true
}

/// Whether a cell of that date is one that the query asks for.
pub fn matches_on(ast: &Ast, cell: &Cell, ctx: &MatchContext, date: Date) -> (r: bool)
    requires
        ast@.includes.time matches Some(t) ==> time_settled(t, ctx.today),
    ensures
        r == matched(
            ast@,
            cell.model(),
            ctx.today,
            ctx.person_targets@,
            ctx.person_excludes@,
            date,
        ),
{
    if let Some(t) = &ast.includes.time {
        let (start, end) = resolve_time(t, ctx.today);
        if date.before(start) || !date.before(end) {
            return false;
        }
    }
    let tags = cell.heading_tag_names();
    if !tags_match(ast, &tags) {
        return false;
    }
    let urls = cell.all_link_urls();
    if ctx.person_targets.len() > 0 && !any_leads_to(&urls, &ctx.person_targets) {
        return false;
    }
    if any_leads_to(&urls, &ctx.person_excludes) {
        return false;
    }
    if text::len(ast.text.as_str()) > 0 {
        let needle = text::to_lowercase(ast.text.as_str());
        let full = cell.full_text();
        let lower = text::to_lowercase(full.as_str());
        assert(utf8(needle@) == lower_case(ast@.text));
        assert(utf8(lower@) == lower_case(cell.model().full()));
        return text::find(lower.as_str(), needle.as_str()).is_some();
    }
    true
}

/// Whether a cell is one that the query asks for; its date is that of its moment
/// where the machine is.
pub fn matches(ast: &Ast, cell: &Cell, ctx: &MatchContext) -> (r: bool)
    requires
        ast@.includes.time matches Some(t) ==> time_settled(t, ctx.today),
        ast@.includes.time is Some ==> moment_settled(cell.timestamp),
    ensures
        exists|date: Date|
            {
                &&& r == #[trigger] matched(
                    ast@,
                    cell.model(),
                    ctx.today,
                    ctx.person_targets@,
                    ctx.person_excludes@,
                    date,
                )
                &&& date.wf()
                &&& ast@.includes.time is Some ==> may_be_dated(date, cell.timestamp as int)
            },
{
    let date = if ast.includes.time.is_some() {
        local_date_for_ms(cell.timestamp)
    } else {
        Date { year: 1970, month: 1, day: 1 }
    };
    matches_on(ast, cell, ctx, date)
}

/// A query that asks for nothing finds every cell.
pub proof fn an_empty_query_finds_every_cell(m: CellModel, today: Date, date: Date)
    ensures
        matched(
            AstModel {
                includes: FiltersModel::none(),
                excludes: FiltersModel::none(),
                text: Seq::empty(),
            },
            m,
            today,
            Seq::empty(),
            Seq::empty(),
            date,
        ),
{
}

/// Asking for more finds no more: a cell that a query with one more tag finds, the
/// query without it finds too.
pub proof fn asking_for_another_tag_finds_no_more(
    a: AstModel,
    tag: Seq<u8>,
    m: CellModel,
    today: Date,
    targets: Seq<Uuid>,
    excludes: Seq<Uuid>,
    date: Date,
)
    requires
        matched(
            AstModel {
                includes: FiltersModel { tags: a.includes.tags.push(tag), ..a.includes },
                ..a
            },
            m,
            today,
            targets,
            excludes,
            date,
        ),
    ensures
        matched(a, m, today, targets, excludes, date),
        has_tag(m.heading_tags(), tag),
{
    let asked = AstModel {
        includes: FiltersModel { tags: a.includes.tags.push(tag), ..a.includes },
        ..a
    };
    let n = a.includes.tags.len() as int;
    assert(asked.includes.tags[n] == tag);
    assert forall|i: int| 0 <= i < a.includes.tags.len() implies has_tag(
        m.heading_tags(),
        #[trigger] a.includes.tags[i],
    ) by {
        assert(asked.includes.tags[i] == a.includes.tags[i]);
    }
}

/// Whoever is left out is left out: a cell with a link whose address is `kept://` and an
/// identity that is left out is found by no query, whatever else the query asks for.
pub proof fn whoever_is_left_out_is_not_found(
    a: AstModel,
    m: CellModel,
    today: Date,
    targets: Seq<Uuid>,
    excludes: Seq<Uuid>,
    date: Date,
    url: Seq<u8>,
    id: Uuid,
)
    requires
        m.urls().contains(url),
        excludes.contains(id),
        url.len() >= 7,
        url.subrange(0, 7) == utf8("kept://"@),
        uuid_spelled(decode_utf8(url.subrange(7, url.len() as int))) == Some(id),
    ensures
        !matched(a, m, today, targets, excludes, date),
{
    reveal_strlit("kept://");
    is_ascii_chars_encode_utf8("kept://"@);
    let i = choose|i: int| 0 <= i < m.urls().len() && m.urls()[i] == url;
    let j = choose|j: int| 0 <= j < excludes.len() && excludes[j] == id;
    assert(kept_id(m.urls()[i]) == Some(excludes[j]));
}

/// Leaving another person out finds no more; and of the cells found before, it loses just those
/// with a link that leads to that person.
pub proof fn leaving_another_person_out_loses_their_cells(
    a: AstModel,
    m: CellModel,
    today: Date,
    targets: Seq<Uuid>,
    excludes: Seq<Uuid>,
    date: Date,
    id: Uuid,
)
    ensures
        matched(a, m, today, targets, excludes.push(id), date) <==> matched(
            a,
            m,
            today,
            targets,
            excludes,
            date,
        ) && forall|i: int|
            0 <= i < m.urls().len() ==> kept_id(#[trigger] m.urls()[i]) != Some(id),
{
    let us = m.urls();
    let more = excludes.push(id);
    let n = excludes.len() as int;
    assert(more[n] == id);
    if leads_to(us, excludes) {
        let (i, j) = choose|i: int, j: int|
            #![trigger us[i], excludes[j]]
            0 <= i < us.len() && 0 <= j < excludes.len() && kept_id(us[i]) == Some(excludes[j]);
        assert(kept_id(us[i]) == Some(more[j]));
        assert(leads_to(us, more));
    }
    if leads_to(us, more) && !leads_to(us, excludes) {
        let (i, j) = choose|i: int, j: int|
            #![trigger us[i], more[j]]
            0 <= i < us.len() && 0 <= j < more.len() && kept_id(us[i]) == Some(more[j]);
        if j < n {
            assert(kept_id(us[i]) == Some(excludes[j]));
        }
        assert(kept_id(us[i]) == Some(id));
    }
    if exists|i: int| 0 <= i < us.len() && kept_id(#[trigger] us[i]) == Some(id) {
        let i = choose|i: int| 0 <= i < us.len() && kept_id(#[trigger] us[i]) == Some(id);
        assert(kept_id(us[i]) == Some(more[n]));
        assert(leads_to(us, more));
    }
}

/// Where people are asked for, a cell that is found has a link whose address is `kept://` and
/// the identity of one of them.
pub proof fn cells_found_lead_to_someone_asked_for(
    a: AstModel,
    m: CellModel,
    today: Date,
    targets: Seq<Uuid>,
    excludes: Seq<Uuid>,
    date: Date,
)
    requires
        matched(a, m, today, targets, excludes, date),
        targets.len() > 0,
    ensures
        exists|i: int|
            {
                &&& 0 <= i < m.urls().len()
                &&& (#[trigger] m.urls()[i]).len() >= 7
                &&& m.urls()[i].subrange(0, 7) == utf8("kept://"@)
                &&& uuid_spelled(decode_utf8(m.urls()[i].subrange(7, m.urls()[i].len() as int)))
                    matches Some(id) && targets.contains(id)
            },
{
    reveal_strlit("kept://");
    is_ascii_chars_encode_utf8("kept://"@);
    let us = m.urls();
    let (i, j) = choose|i: int, j: int|
        #![trigger us[i], targets[j]]
        0 <= i < us.len() && 0 <= j < targets.len() && kept_id(us[i]) == Some(targets[j]);
    assert(targets.contains(targets[j]));
    assert(us[i].subrange(0, 7) == utf8("kept://"@));
}

/// Leaving another tag out finds no more; and of the cells found before, it loses just those
/// whose heading has that tag, whatever its letter case.
pub proof fn leaving_another_tag_out_loses_its_cells(
    a: AstModel,
    tag: Seq<u8>,
    m: CellModel,
    today: Date,
    targets: Seq<Uuid>,
    excludes: Seq<Uuid>,
    date: Date,
)
    ensures
        matched(
            AstModel {
                excludes: FiltersModel { tags: a.excludes.tags.push(tag), ..a.excludes },
                ..a
            },
            m,
            today,
            targets,
            excludes,
            date,
        ) <==> matched(a, m, today, targets, excludes, date) && forall|i: int|
            0 <= i < m.heading_tags().len() ==> folded(#[trigger] m.heading_tags()[i]) != folded(
                tag,
            ),
{
    let less = AstModel {
        excludes: FiltersModel { tags: a.excludes.tags.push(tag), ..a.excludes },
        ..a
    };
    let tags = m.heading_tags();
    let n = a.excludes.tags.len() as int;
    assert(less.excludes.tags[n] == tag);
    assert(!has_tag(tags, tag) <==> forall|i: int|
        0 <= i < tags.len() ==> folded(#[trigger] tags[i]) != folded(tag));
    if matched(less, m, today, targets, excludes, date) {
        assert forall|i: int| 0 <= i < n implies !has_tag(
            tags,
            #[trigger] a.excludes.tags[i],
        ) by {
            assert(less.excludes.tags[i] == a.excludes.tags[i]);
        }
        assert(matched(a, m, today, targets, excludes, date));
    }
    if matched(a, m, today, targets, excludes, date) && !has_tag(tags, tag) {
        assert forall|i: int| 0 <= i < less.excludes.tags.len() implies !has_tag(
            tags,
            #[trigger] less.excludes.tags[i],
        ) by {
            if i < n {
                assert(less.excludes.tags[i] == a.excludes.tags[i]);
            }
        }
    }
}

/// Where a query names days, a cell that is found is dated on one of them: it is not dated
/// before today where it asks for today, and so on. Days are counted in the calendar.
pub proof fn cells_found_are_dated_on_the_days_asked_for(
    a: AstModel,
    m: CellModel,
    today: Date,
    targets: Seq<Uuid>,
    excludes: Seq<Uuid>,
    date: Date,
)
    requires
        matched(a, m, today, targets, excludes, date),
        a.includes.time matches Some(t) && time_settled(t, today),
        today.wf(),
        date.wf(),
    ensures
        match a.includes.time->0 {
            TimeFilter::Today => date.number() == today.number(),
            TimeFilter::Yesterday => date.number() == today.number() - 1,
            TimeFilter::Day(d) => date.number() == d.number(),
            TimeFilter::Range(first, last) => first.number() <= date.number() <= last.number(),
            TimeFilter::ThisWeek => {
                &&& -7 < date.number() - today.number() < 7
                &&& date.number() - date.weekday_model() == today.number() - today.weekday_model()
            },
            TimeFilter::LastWeek => date.number() - date.weekday_model() == today.number()
                - today.weekday_model() - 7,
            TimeFilter::NextWeek => date.number() - date.weekday_model() == today.number()
                - today.weekday_model() + 7,
        },
{
    let t = a.includes.time->0;
    let days = resolved(t, today);
    let back = today.weekday_model();
    let monday = today.shifted(-back);
    lemma_number_bounds(today);
    lemma_number_bounds(date);
    match t {
        TimeFilter::Today => shifted_dates_are_that_far_away(today, 1),
        TimeFilter::Yesterday => shifted_dates_are_that_far_away(today, -1),
        TimeFilter::Day(d) => shifted_dates_are_that_far_away(d, 1),
        TimeFilter::Range(_, b) => shifted_dates_are_that_far_away(b, 1),
        TimeFilter::ThisWeek => {
            shifted_dates_are_that_far_away(today, -back);
            shifted_dates_are_that_far_away(monday, 7);
        },
        TimeFilter::LastWeek => {
            shifted_dates_are_that_far_away(today, -back);
            shifted_dates_are_that_far_away(monday, -7);
            shifted_dates_are_that_far_away(monday.shifted(-7), 7);
        },
        TimeFilter::NextWeek => {
            shifted_dates_are_that_far_away(today, -back);
            shifted_dates_are_that_far_away(monday, 7);
            shifted_dates_are_that_far_away(monday.shifted(7), 7);
        },
    }
    dates_are_numbered_in_order(date, days.0);
    dates_are_numbered_in_order(date, days.1);
}

/// The words are looked for: a cell that is found holds them somewhere, letter case aside.
pub proof fn cells_found_hold_the_words(
    a: AstModel,
    m: CellModel,
    today: Date,
    targets: Seq<Uuid>,
    excludes: Seq<Uuid>,
    date: Date,
)
    requires
        a.text.len() > 0,
        matched(a, m, today, targets, excludes, date),
    ensures
        exists|front: Seq<u8>, back: Seq<u8>|
            lower_case(m.full()) == #[trigger] (front + lower_case(a.text) + back),
{
    let full = lower_case(m.full());
    let words = lower_case(a.text);
    let j = choose|j: int| occurs_at(full, words, j);
    assert(full =~= full.subrange(0, j) + words + full.subrange(
        j + words.len(),
        full.len() as int,
    ));
}

// ---------------------------------------------------------------------------
// People
// ---------------------------------------------------------------------------

/// What of a text from `p` on is neither white space nor an underscore, behind
/// `acc`.
pub open spec fn squeezed(acc: Seq<u8>, b: Seq<u8>, p: int) -> Seq<u8>
    decreases b.len() - p,
{
    let n = next_boundary(b, p);
    if !(0 <= p < n <= b.len()) {
        acc
    } else if white(char_at(b, p)) || b[p] == 95 {
        squeezed(acc, b, n)
    } else {
        squeezed(acc + b.subrange(p, n), b, n)
    }
}

/// A name as it is compared: ASCII letters in lower case, without white space and
/// underscores.
pub open spec fn name_key(b: Seq<u8>) -> Seq<u8> {
    squeezed(Seq::empty(), folded(b), 0)
}

/// A text with neither white space nor an underscore.
pub open spec fn squeezed_out(b: Seq<u8>) -> bool {
    valid_utf8(b) && forall|p: int|
        0 <= p < b.len() && boundary(b, p) ==> !white(#[trigger] char_at(b, p)) && b[p] != 95
}

/// A text without an ASCII capital.
pub open spec fn uncapped(b: Seq<u8>) -> bool {
    forall|i: int| 0 <= i < b.len() ==> !(65 <= #[trigger] b[i] <= 90)
}

proof fn lemma_inside_char(b: Seq<u8>, p: int, k: int)
    requires
        0 <= p < k < next_boundary(b, p),
    ensures
        !boundary(b, k),
    decreases b.len() - p,
{
    if p + 1 < b.len() && !boundary(b, p + 1) && k > p + 1 {
        lemma_inside_char(b, p + 1, k);
    }
}

pub proof fn lemma_folded_valid(b: Seq<u8>)
    requires
        valid_utf8(b),
    ensures
        valid_utf8(folded(b)),
        uncapped(folded(b)),
    decreases b.len(),
{
    if b.len() == 0 {
        assert(folded(b) =~= b);
    } else {
        let n = next_boundary(b, 0);
        let c = b.subrange(0, n);
        let r = b.subrange(n, b.len() as int);
        lemma_boundary_ends(b);
        lemma_next_boundary(b, 0);
        lemma_slice_valid(b, 0, n);
        lemma_slice_valid(b, n, b.len() as int);
        lemma_folded_valid(r);
        if b[0] < 128 {
            lemma_ascii_char(b, 0);
            let d = seq![lower_byte(b[0]) as char];
            is_ascii_chars_encode_utf8(d);
            encode_utf8_valid_utf8(d);
            assert(utf8(d) =~= folded(c));
        } else {
            assert forall|k: int| 0 <= k < n implies lower_byte(#[trigger] c[k]) == c[k] by {
                if k > 0 {
                    lemma_inside_char(b, 0, k);
                }
            }
            assert(folded(c) =~= c);
        }
        assert(folded(b) =~= folded(c) + folded(r));
        valid_utf8_concat(folded(c), folded(r));
    }
}

/// The text with its ASCII letters in lower case.
fn to_ascii_lowercase(s: &str) -> (r: String)
    ensures
        utf8(r@) == folded(utf8(s@)),
{
    let b = s.as_bytes();
    let mut out: Vec<u8> = Vec::new();
    let mut i: usize = 0;
    while i < b.len()
        invariant
            b@ == utf8(s@),
            i <= b.len(),
            out@ == folded(b@.subrange(0, i as int)),
        decreases b.len() - i,
    {
        out.push(text::to_lower_byte(b[i]));
        i += 1;
        assert(out@ =~= folded(b@.subrange(0, i as int)));
    }
    proof {
        lemma_utf8_valid(s@);
        lemma_folded_valid(b@);
        assert(b@.subrange(0, i as int) =~= b@);
    }
    match text::string_of(out) {
        Some(r) => r,
        None => String::new(),
    }
}

proof fn lemma_squeezed(acc: Seq<u8>, b: Seq<u8>, p: int)
    requires
        squeezed_out(acc),
        uncapped(acc),
        valid_utf8(b),
        uncapped(b),
        boundary(b, p),
    ensures
        squeezed_out(squeezed(acc, b, p)),
        uncapped(squeezed(acc, b, p)),
    decreases b.len() - p,
{
    let n = next_boundary(b, p);
    lemma_next_boundary(b, p);
    if p < n {
        if white(char_at(b, p)) || b[p] == 95 {
            lemma_squeezed(acc, b, n);
        } else {
            let c = b.subrange(p, n);
            let t = acc + c;
            lemma_slice_valid(b, p, n);
            valid_utf8_concat(acc, c);
            lemma_boundary_ends(acc);
            lemma_boundary_ends(c);
            lemma_boundary_ends(t);
            assert(t[acc.len() as int] == b[p]);
            assert forall|q: int| 0 <= q < t.len() && boundary(t, q) implies !white(
                #[trigger] char_at(t, q),
            ) && t[q] != 95 by {
                if q < acc.len() {
                    assert(t.subrange(0, acc.len() as int) =~= acc);
                    assert(t[q] == acc[q]);
                    lemma_part(t, 0, acc, q);
                } else {
                    let i = q - acc.len();
                    assert(t[q] == b[p + i]);
                    if i > 0 {
                        lemma_inside_char(b, p, p + i);
                    }
                    assert(t.subrange(acc.len() as int, t.len() as int) =~= c);
                    lemma_part(t, acc.len() as int, c, 0);
                    lemma_part(b, p, c, 0);
                }
            }
            assert(squeezed_out(t));
            assert(uncapped(t));
            lemma_squeezed(t, b, n);
        }
    }
}

proof fn lemma_squeezed_stays(acc: Seq<u8>, b: Seq<u8>, p: int)
    requires
        squeezed_out(b),
        boundary(b, p),
    ensures
        squeezed(acc, b, p) == acc + b.subrange(p, b.len() as int),
    decreases b.len() - p,
{
    let n = next_boundary(b, p);
    lemma_next_boundary(b, p);
    if p < n {
        lemma_squeezed_stays(acc + b.subrange(p, n), b, n);
        assert(acc + b.subrange(p, n) + b.subrange(n, b.len() as int) =~= acc + b.subrange(
            p,
            b.len() as int,
        ));
    } else {
        assert(acc + b.subrange(p, b.len() as int) =~= acc);
    }
}

/// A name as it is compared has no white space, no underscore and no ASCII capital,
/// and stays as it is.
pub proof fn names_to_compare_are_plain_and_stay(b: Seq<u8>)
    requires
        valid_utf8(b),
    ensures
        squeezed_out(name_key(b)),
        uncapped(name_key(b)),
        name_key(name_key(b)) == name_key(b),
{
    let f = folded(b);
    let none = Seq::<u8>::empty();
    lemma_folded_valid(b);
    lemma_boundary_ends(f);
    encode_utf8_valid_utf8(Seq::empty());
    assert(utf8(Seq::empty()) =~= none);
    lemma_squeezed(none, f, 0);
    let k = name_key(b);
    assert(folded(k) =~= k);
    lemma_boundary_ends(k);
    lemma_squeezed_stays(none, k, 0);
    assert(none + k.subrange(0, k.len() as int) =~= k);
}

/// A name as it is compared: ASCII letters in lower case, without white space and
/// underscores.
pub fn normalize_entity_token(s: &str) -> (r: String)
    ensures
        utf8(r@) == name_key(utf8(s@)),
{
    let lower = to_ascii_lowercase(s);
    let t = lower.as_str();
    let ghost b = utf8(t@);
    let n: usize = text::len(t);
    let mut out = String::new();
    let mut p: usize = 0;
    proof {
        assert(utf8(out@) =~= Seq::<u8>::empty());
        lemma_utf8_valid(t@);
        lemma_boundary_ends(b);
    }
    while p < n
        invariant
            b == utf8(t@),
            n == b.len(),
            p <= n,
            boundary(b, p as int),
            squeezed(Seq::empty(), b, 0) == squeezed(utf8(out@), b, p as int),
        decreases n - p,
    {
        let q: usize = next_char_boundary(t, p);
        proof {
            lemma_next_boundary(b, p as int);
        }
        if !text::is_white(text::get_char(t, p)) && text::byte_at(t, p) != 95 {
            text::push_str(&mut out, text::slice(t, p, q));
        }
        p = q;
    }
    out
}

/// `p` occurs in `b`.
pub open spec fn occurs_in(b: Seq<u8>, p: Seq<u8>) -> bool {
    exists|j: int| occurs_at(b, p, j)
}

/// The entities behind `out` that the first `n` aliases name with `needle`.
pub open spec fn by_alias(
    out: Seq<Uuid>,
    needle: Seq<u8>,
    aliases: Seq<(Seq<u8>, Uuid, Seq<u8>)>,
    n: int,
) -> Seq<Uuid>
    decreases n,
{
    if n <= 0 {
        out
    } else {
        let before = by_alias(out, needle, aliases, n - 1);
        let (alias, id, kind) = aliases[n - 1];
        if kind == utf8("person"@) && occurs_in(name_key(alias), needle) && !before.contains(id) {
            before.push(id)
        } else {
            before
        }
    }
}

/// One of the first `n` aliases is that of a person and holds `needle`.
pub open spec fn alias_fits(
    needle: Seq<u8>,
    aliases: Seq<(Seq<u8>, Uuid, Seq<u8>)>,
    n: int,
) -> bool {
    exists|i: int|
        0 <= i < n && (#[trigger] aliases[i]).2 == utf8("person"@) && occurs_in(
            name_key(aliases[i].0),
            needle,
        )
}

/// The entities behind `out` among the first `n` whose name holds `needle`.
pub open spec fn by_title(
    out: Seq<Uuid>,
    needle: Seq<u8>,
    titles: Seq<(Uuid, Seq<u8>)>,
    n: int,
) -> Seq<Uuid>
    decreases n,
{
    if n <= 0 {
        out
    } else {
        let before = by_title(out, needle, titles, n - 1);
        let (id, name) = titles[n - 1];
        if occurs_in(name, needle) && !before.contains(id) {
            before.push(id)
        } else {
            before
        }
    }
}

/// The people that the first `n` names mean: by their aliases, and only where no
/// alias fits by their names.
pub open spec fn people_meant(
    names: Seq<Seq<u8>>,
    aliases: Seq<(Seq<u8>, Uuid, Seq<u8>)>,
    titles: Seq<(Uuid, Seq<u8>)>,
    n: int,
) -> Seq<Uuid>
    decreases n,
{
    if n <= 0 {
        Seq::empty()
    } else {
        let before = people_meant(names, aliases, titles, n - 1);
        let needle = name_key(names[n - 1]);
        if needle.len() == 0 {
            before
        } else {
            let found = by_alias(before, needle, aliases, aliases.len() as int);
            if alias_fits(needle, aliases, aliases.len() as int) {
                found
            } else {
                by_title(found, needle, titles, titles.len() as int)
            }
        }
    }
}

/// Aliases as they are modelled.
pub open spec fn alias_views(v: Seq<(String, Uuid, String)>) -> Seq<(Seq<u8>, Uuid, Seq<u8>)> {
    Seq::new(v.len(), |i: int| (utf8(v[i].0@), v[i].1, utf8(v[i].2@)))
}

/// Names of entities as they are modelled.
pub open spec fn title_views(v: Seq<(Uuid, String)>) -> Seq<(Uuid, Seq<u8>)> {
    Seq::new(v.len(), |i: int| (v[i].0, utf8(v[i].1@)))
}

fn has_id(ids: &Vec<Uuid>, id: Uuid) -> (r: bool)
    ensures
        r == ids@.contains(id),
{
    let mut i: usize = 0;
    while i < ids.len()
        invariant
            i <= ids.len(),
            forall|k: int| 0 <= k < i ==> ids@[k] != id,
        decreases ids.len() - i,
    {
        if ids[i] == id {
            return true;
        }
        i += 1;
    }
    false
}

/// The entities that the names of a query mean: by their aliases, and where no alias
/// fits by their names.
pub fn resolve_persons(
    refs: &[EntityRef],
    alias_index: &[(String, Uuid, String)],
    title_fallback: &[(Uuid, String)],
) -> (out: Vec<Uuid>)
    ensures
        out@ == people_meant(
            views(refs@),
            alias_views(alias_index@),
            title_views(title_fallback@),
            refs@.len() as int,
        ),
{
    let ghost names = views(refs@);
    let ghost aliases = alias_views(alias_index@);
    let ghost titles = title_views(title_fallback@);
    let mut out: Vec<Uuid> = Vec::new();
    let mut i: usize = 0;
    while i < refs.len()
        invariant
            i <= refs.len(),
            names == views(refs@),
            aliases == alias_views(alias_index@),
            titles == title_views(title_fallback@),
            out@ == people_meant(names, aliases, titles, i as int),
        decreases refs.len() - i,
    {
        assert(names[i as int] == refs@[i as int]@);
        let needle = normalize_entity_token(refs[i].id.as_str());
        if text::len(needle.as_str()) > 0 {
            let mut fits: bool = false;
            let ghost start = out@;
            let mut k: usize = 0;
            while k < alias_index.len()
                invariant
                    k <= alias_index.len(),
                    aliases == alias_views(alias_index@),
                    out@ == by_alias(start, utf8(needle@), aliases, k as int),
                    fits == alias_fits(utf8(needle@), aliases, k as int),
                decreases alias_index.len() - k,
            {
                let (alias, id, kind) = &alias_index[k];
                let ghost row = aliases[k as int];
                if text::same(kind.as_str(), "person") {
                    let key = normalize_entity_token(alias.as_str());
                    if text::find(key.as_str(), needle.as_str()).is_some() {
                        fits = true;
                        if !has_id(&out, *id) {
                            out.push(*id);
                        }
                    }
                }
                k += 1;
            }
            if !fits {
                let ghost found = out@;
                let mut k: usize = 0;
                while k < title_fallback.len()
                    invariant
                        k <= title_fallback.len(),
                        titles == title_views(title_fallback@),
                        out@ == by_title(found, utf8(needle@), titles, k as int),
                    decreases title_fallback.len() - k,
                {
                    let (id, name) = &title_fallback[k];
                    if text::find(name.as_str(), needle.as_str()).is_some() && !has_id(&out, *id) {
                        out.push(*id);
                    }
                    k += 1;
                }
            }
        }
        i += 1;
    }
    out
}

/// The identity is one that an alias or a name leads to.
pub open spec fn is_listed(
    id: Uuid,
    aliases: Seq<(Seq<u8>, Uuid, Seq<u8>)>,
    titles: Seq<(Uuid, Seq<u8>)>,
) -> bool {
    (exists|i: int| 0 <= i < aliases.len() && (#[trigger] aliases[i]).1 == id) || (exists|i: int|
        0 <= i < titles.len() && (#[trigger] titles[i]).0 == id)
}

spec fn sound(
    out: Seq<Uuid>,
    aliases: Seq<(Seq<u8>, Uuid, Seq<u8>)>,
    titles: Seq<(Uuid, Seq<u8>)>,
) -> bool {
    out.no_duplicates() && forall|i: int|
        0 <= i < out.len() ==> is_listed(#[trigger] out[i], aliases, titles)
}

proof fn lemma_by_alias(
    out: Seq<Uuid>,
    needle: Seq<u8>,
    aliases: Seq<(Seq<u8>, Uuid, Seq<u8>)>,
    titles: Seq<(Uuid, Seq<u8>)>,
    n: int,
)
    requires
        sound(out, aliases, titles),
        n <= aliases.len(),
    ensures
        sound(by_alias(out, needle, aliases, n), aliases, titles),
    decreases n,
{
    if n > 0 {
        lemma_by_alias(out, needle, aliases, titles, n - 1);
        assert(is_listed(aliases[n - 1].1, aliases, titles));
    }
}

proof fn lemma_by_title(
    out: Seq<Uuid>,
    needle: Seq<u8>,
    aliases: Seq<(Seq<u8>, Uuid, Seq<u8>)>,
    titles: Seq<(Uuid, Seq<u8>)>,
    n: int,
)
    requires
        sound(out, aliases, titles),
        n <= titles.len(),
    ensures
        sound(by_title(out, needle, titles, n), aliases, titles),
    decreases n,
{
    if n > 0 {
        lemma_by_title(out, needle, aliases, titles, n - 1);
        assert(is_listed(titles[n - 1].0, aliases, titles));
    }
}

/// Whoever a query means is an entity that an alias or a name leads to, and is meant
/// once.
pub proof fn people_meant_are_entities(
    names: Seq<Seq<u8>>,
    aliases: Seq<(Seq<u8>, Uuid, Seq<u8>)>,
    titles: Seq<(Uuid, Seq<u8>)>,
    n: int,
)
    requires
        n <= names.len(),
    ensures
        people_meant(names, aliases, titles, n).no_duplicates(),
        forall|i: int|
            0 <= i < people_meant(names, aliases, titles, n).len() ==> is_listed(
                #[trigger] people_meant(names, aliases, titles, n)[i],
                aliases,
                titles,
            ),
    decreases n,
{
    if n > 0 {
        people_meant_are_entities(names, aliases, titles, n - 1);
        let before = people_meant(names, aliases, titles, n - 1);
        let needle = name_key(names[n - 1]);
        if needle.len() > 0 {
            lemma_by_alias(before, needle, aliases, titles, aliases.len() as int);
            let found = by_alias(before, needle, aliases, aliases.len() as int);
            if !alias_fits(needle, aliases, aliases.len() as int) {
                lemma_by_title(found, needle, aliases, titles, titles.len() as int);
            }
        }
    }
}

} // verus!
