//! Which keys can be taken: where selections lie apart and there is room, the edits that a
//! key asks for find their places.
use vstd::prelude::*;
use vstd::utf8::*;

use crate::cell::bullets::{
    bullets_wf, caret_put, lemma_bullet_pos, readopted, zoomed, BulletModel, OutlineModel,
};
use crate::cell::common::{word_mod, EditModel, Key, KeyEvent, Modifiers, Selection};
use crate::cell::model::{
    edit_fits, edits_fit, erasing_back, erasing_forward, erasing_word_back, erasing_word_forward,
    gather, inserted, key_edits, lemma_gather_replacing, lemma_insert_back_at, lemma_inserted_push,
    lemma_place_at, links_natural, placed, right_to_left, TextModel,
};
use crate::cell::typing::selections_apart_can_be_typed_over;
use crate::cell::wrap::{
    lemma_next_boundary, lemma_prev_boundary, lemma_word_bounds, next_boundary, prev_boundary,
};
use crate::ids::Uuid;
use crate::text::{
    boundary, lemma_boundary_ends, lemma_splice_boundaries, lemma_splice_valid, lemma_utf8_valid,
    spliced, utf8,
};

verus! {

/// Edits of parts of the text, one behind the other.
spec fn in_a_row(text: Seq<u8>, es: Seq<EditModel>) -> bool {
    &&& forall|i: int| 0 <= i < es.len() ==> edit_fits(text, #[trigger] es[i])
    &&& forall|i: int, j: int|
        0 <= i < j < es.len() ==> (#[trigger] es[i]).end <= (#[trigger] es[j]).start && es[i].start
            < es[j].start
}

proof fn lemma_row_turned(text: Seq<u8>, es: Seq<EditModel>)
    requires
        in_a_row(text, es),
    ensures
        right_to_left(es) == es.reverse(),
    decreases es.len(),
{
    if es.len() > 0 {
        let d = es.drop_last();
        let e = es[es.len() - 1];
        assert(in_a_row(text, d)) by {
            assert forall|i: int| 0 <= i < d.len() implies edit_fits(text, #[trigger] d[i]) by {
                assert(edit_fits(text, es[i]));
            }
            assert forall|i: int, j: int| 0 <= i < j < d.len() implies (#[trigger] d[i]).end <= (
            #[trigger] d[j]).start && d[i].start < d[j].start by {
                assert(es[i].end <= es[j].start);
            }
        }
        lemma_row_turned(text, d);
        let r = d.reverse();
        assert forall|i: int| 0 <= i < r.len() implies (#[trigger] r[i]).start < e.start by {
            assert(es[d.len() - 1 - i].start < es[es.len() - 1].start);
        }
        lemma_insert_back_at(r, e, 0);
        assert(r.insert(0, e) =~= es.reverse());
    } else {
        assert(es.reverse() =~= es);
    }
}

proof fn lemma_row_fits(text: Seq<u8>, es: Seq<EditModel>)
    requires
        valid_utf8(text),
        in_a_row(text, es),
    ensures
        edits_fit(text, es.reverse()),
    decreases es.len(),
{
    if es.len() > 0 {
        let d = es.drop_last();
        let e = es[es.len() - 1];
        assert(edit_fits(text, e));
        lemma_splice_valid(text, e.start, e.end, e.with);
        lemma_splice_boundaries(text, e.start, e.end, e.with);
        let next = spliced(text, e.start, e.end, e.with);
        assert forall|i: int| 0 <= i < d.len() implies edit_fits(next, #[trigger] d[i]) by {
            assert(edit_fits(text, es[i]));
            assert(es[i].end <= es[es.len() - 1].start);
        }
        assert forall|i: int, j: int| 0 <= i < j < d.len() implies (#[trigger] d[i]).end <= (
        #[trigger] d[j]).start && d[i].start < d[j].start by {
            assert(es[i].end <= es[j].start);
        }
        lemma_row_fits(next, d);
        assert(es.reverse()[0] == e);
        assert(es.reverse().drop_first() =~= d.reverse());
    } else {
        assert(es.reverse().len() == 0);
    }
}

/// Each of the selections asks for an edit of its own surroundings, if for any.
spec fn asks_in_a_row(
    text: Seq<u8>,
    v: Seq<Selection>,
    f: spec_fn(Selection) -> Option<EditModel>,
) -> bool {
    &&& forall|i: int|
        0 <= i < v.len() ==> (f(#[trigger] v[i]) matches Some(e) ==> edit_fits(text, e))
    &&& forall|i: int, j: int|
        0 <= i < j < v.len() ==> (f(#[trigger] v[i]) matches Some(e) ==> (f(
            #[trigger] v[j],
        ) matches Some(g) ==> e.end <= g.start && e.start < g.start))
}

proof fn lemma_gathered_row(
    text: Seq<u8>,
    v: Seq<Selection>,
    f: spec_fn(Selection) -> Option<EditModel>,
)
    requires
        asks_in_a_row(text, v, f),
    ensures
        in_a_row(text, gather(v, f)),
        forall|k: int|
            0 <= k < gather(v, f).len() ==> exists|i: int|
                0 <= i < v.len() && f(#[trigger] v[i]) == Some(#[trigger] gather(v, f)[k]),
    decreases v.len(),
{
    if v.len() > 0 {
        let d = v.drop_last();
        let n = v.len() - 1;
        assert(asks_in_a_row(text, d, f)) by {
            assert forall|i: int, j: int| 0 <= i < j < d.len() implies (f(
                #[trigger] d[i],
            ) matches Some(e) ==> (f(#[trigger] d[j]) matches Some(g) ==> e.end <= g.start
                && e.start < g.start)) by {
                assert(d[i] == v[i] && d[j] == v[j]);
            }
            assert forall|i: int| 0 <= i < d.len() implies (f(#[trigger] d[i]) matches Some(e)
                ==> edit_fits(text, e)) by {
                assert(d[i] == v[i]);
            }
        }
        lemma_gathered_row(text, d, f);
        let rest = gather(d, f);
        let all = gather(v, f);
        assert forall|k: int| 0 <= k < all.len() implies exists|i: int|
            0 <= i < v.len() && f(#[trigger] v[i]) == Some(#[trigger] all[k]) by {
            if k < rest.len() {
                let i = choose|i: int| 0 <= i < d.len() && f(#[trigger] d[i]) == Some(rest[k]);
                assert(f(v[i]) == Some(all[k]));
            } else {
                assert(f(v[n]) == Some(all[k]));
            }
        }
        assert forall|i: int, j: int| 0 <= i < j < all.len() implies (#[trigger] all[i]).end <= (
        #[trigger] all[j]).start && all[i].start < all[j].start by {
            if j < rest.len() {
                assert(rest[i].end <= rest[j].start);
            } else {
                let a = choose|a: int| 0 <= a < d.len() && f(#[trigger] d[a]) == Some(rest[i]);
                assert(f(v[a]) == Some(all[i]));
                assert(f(v[n]) == Some(all[j]));
            }
        }
        assert forall|i: int| 0 <= i < all.len() implies edit_fits(text, #[trigger] all[i]) by {
            if i < rest.len() {
                assert(edit_fits(text, rest[i]));
            } else {
                assert(f(v[n]) == Some(all[i]));
            }
        }
    }
}

proof fn lemma_next_before(b: Seq<u8>, i: int, k: int)
    requires
        boundary(b, k),
        0 <= i < k,
    ensures
        next_boundary(b, i) <= k,
    decreases k - i,
{
    if i + 1 < k && !boundary(b, i + 1) {
        lemma_next_before(b, i + 1, k);
    }
}

proof fn lemma_prev_behind(b: Seq<u8>, i: int, k: int)
    requires
        boundary(b, k),
        0 <= k < i,
    ensures
        k <= prev_boundary(b, i),
    decreases i,
{
    if k < i - 1 && !boundary(b, i - 1) {
        lemma_prev_behind(b, i - 1, k);
    }
}

proof fn lemma_asks(m: TextModel)
    requires
        m.wf(),
        m.doc.sels.disjoint(),
    ensures
        ({
            let (b, v) = (m.doc.text, m.doc.sels.items);
            &&& asks_in_a_row(b, v, erasing_back(b))
            &&& asks_in_a_row(b, v, erasing_forward(b))
            &&& v.len() == 1 ==> asks_in_a_row(b, v, erasing_word_back(b)) && asks_in_a_row(
                b,
                v,
                erasing_word_forward(b),
            )
        }),
{
    let (b, v) = (m.doc.text, m.doc.sels.items);
    let empty = Seq::<u8>::empty();
    encode_utf8_valid_utf8(Seq::empty());
    assert(utf8(Seq::empty()) =~= empty);
    assert forall|i: int| 0 <= i < v.len() implies {
        &&& erasing_back(b)(#[trigger] v[i]) matches Some(e) ==> edit_fits(b, e)
        &&& erasing_forward(b)(v[i]) matches Some(e) ==> edit_fits(b, e)
        &&& erasing_word_back(b)(v[i]) matches Some(e) ==> edit_fits(b, e)
        &&& erasing_word_forward(b)(v[i]) matches Some(e) ==> edit_fits(b, e)
    } by {
        assert(placed(b, v[i]));
        lemma_prev_boundary(b, v[i].head as int);
        lemma_next_boundary(b, v[i].head as int);
        lemma_word_bounds(b, v[i].head as int);
    }
    assert forall|i: int, j: int| 0 <= i < j < v.len() implies {
        &&& erasing_back(b)(#[trigger] v[i]) matches Some(e) ==> (erasing_back(b)(
            #[trigger] v[j],
        ) matches Some(g) ==> e.end <= g.start && e.start < g.start)
        &&& erasing_forward(b)(v[i]) matches Some(e) ==> (erasing_forward(b)(
            v[j],
        ) matches Some(g) ==> e.end <= g.start && e.start < g.start)
    } by {
        assert(placed(b, v[i]) && placed(b, v[j]));
        assert(v[i].hi() < v[j].lo());
        lemma_prev_behind(b, v[j].head as int, v[i].hi());
        lemma_next_before(b, v[i].head as int, v[j].lo());
    }
}

proof fn lemma_nothing_put_in(v: Seq<Selection>, f: spec_fn(Selection) -> Option<EditModel>)
    requires
        forall|i: int|
            0 <= i < v.len() ==> (f(#[trigger] v[i]) matches Some(e) ==> e.with.len() == 0),
    ensures
        inserted(gather(v, f)) == 0,
    decreases v.len(),
{
    if v.len() > 0 {
        let d = v.drop_last();
        assert forall|i: int| 0 <= i < d.len() implies (f(#[trigger] d[i]) matches Some(e)
            ==> e.with.len() == 0) by {
            assert(d[i] == v[i]);
        }
        lemma_nothing_put_in(d, f);
        assert(v[v.len() - 1] == v.last());
        if let Some(e) = f(v.last()) {
            lemma_inserted_push(gather(d, f), e);
        }
    }
}

/// Where selections lie apart, and there is just one where whole words are erased, the
/// edits that a key asks for find their places, as long as what it puts in fits the
/// machine.
pub proof fn keys_find_their_places(m: TextModel, ev: KeyEvent, mods: Modifiers)
    requires
        m.wf(),
        m.doc.sels.disjoint(),
        m.doc.sels.items.len() == 1 || !word_mod(mods),
        m.doc.room(inserted(key_edits(m, ev, mods))),
    ensures
        m.can_apply(key_edits(m, ev, mods)),
{
    let (b, v) = (m.doc.text, m.doc.sels.items);
    let edits = key_edits(m, ev, mods);
    lemma_asks(m);
    if edits.len() == 0 {
        assert(right_to_left(edits) == edits);
    } else if ev.key == Key::Backspace || ev.key == Key::Delete {
        let f = if ev.key == Key::Backspace {
            if word_mod(mods) {
                erasing_word_back(b)
            } else {
                erasing_back(b)
            }
        } else {
            if word_mod(mods) {
                erasing_word_forward(b)
            } else {
                erasing_forward(b)
            }
        };
        lemma_gathered_row(b, v, f);
        lemma_row_turned(b, edits);
        lemma_row_fits(b, edits);
    } else if ev.key == Key::Enter {
        let c = seq!['\n'];
        is_ascii_chars_encode_utf8(c);
        assert(utf8(c) =~= seq![10u8]);
        encode_utf8_valid_utf8(c);
        lemma_gather_replacing(v, seq![10u8]);
        selections_apart_can_be_typed_over(m, seq![10u8]);
    } else if let Some(s) = ev.text {
        lemma_utf8_valid(s@);
        lemma_gather_replacing(v, utf8(s@));
        selections_apart_can_be_typed_over(m, utf8(s@));
    }
}

proof fn lemma_put_in(m: TextModel, ev: KeyEvent, mods: Modifiers)
    ensures
        ({
            let k = m.doc.sels.items.len() as int;
            let n = inserted(key_edits(m, ev, mods));
            ||| n == 0
            ||| ev.key == Key::Enter && n == k
            ||| (ev.text matches Some(s) && n == k * utf8(s@).len())
        }),
{
    let (b, v) = (m.doc.text, m.doc.sels.items);
    lemma_nothing_put_in(v, erasing_back(b));
    lemma_nothing_put_in(v, erasing_forward(b));
    lemma_nothing_put_in(v, erasing_word_back(b));
    lemma_nothing_put_in(v, erasing_word_forward(b));
    lemma_gather_replacing(v, seq![10u8]);
    assert(seq![10u8].len() == 1);
    assert(v.len() * seq![10u8].len() == v.len()) by (nonlinear_arith)
        requires
            seq![10u8].len() == 1,
    ;
    if let Some(s) = ev.text {
        lemma_gather_replacing(v, utf8(s@));
    }
    assert(inserted(Seq::<EditModel>::empty()) == 0);
    let n = inserted(key_edits(m, ev, mods));
    if ev.pressed && (ev.key == Key::Modifier || ev.key == Key::Other) {
        match ev.text {
            Some(s) => {
                assert(n == 0 || n == v.len() * utf8(s@).len());
            },
            None => {
                assert(n == 0);
            },
        }
    } else if ev.pressed && ev.key == Key::Enter {
        assert(n == v.len());
    } else {
        assert(n == 0);
    }
}

/// The text is at ease with the key: its selections lie apart, there is just one where whole
/// words are erased, and there is room for `n` bytes more, at least as many as the key puts
/// in and as the text has.
pub open spec fn at_ease(t: TextModel, ev: KeyEvent, mods: Modifiers, n: int) -> bool {
    let k = t.doc.sels.items.len();
    &&& t.doc.sels.disjoint()
    &&& k == 1 || !word_mod(mods)
    &&& links_natural(t.doc.links)
    &&& t.doc.room(n)
    &&& t.doc.text.len() <= n && k <= n
    &&& ev.text matches Some(s) ==> k * utf8(s@).len() <= n && utf8(s@).len() <= n
}

spec fn all_at_ease(bs: Seq<BulletModel>, ev: KeyEvent, mods: Modifiers, n: int) -> bool {
    forall|i: int| 0 <= i < bs.len() ==> at_ease((#[trigger] bs[i]).text, ev, mods, n)
}

proof fn lemma_typing_fits(m: OutlineModel, ev: KeyEvent, mods: Modifiers, now: u64, n: int)
    requires
        bullets_wf(m.bullets),
        all_at_ease(m.bullets, ev, mods, n),
        0 < n,
    ensures
        m.typed(ev, mods, now).fits,
{
    lemma_bullet_pos(m.bullets, m.focused, 0);
    if m.has_focus() {
        let t = m.bullets[m.at()].text;
        assert(at_ease(t, ev, mods, n));
        lemma_put_in(t, ev, mods);
        assert(t.doc.room(inserted(key_edits(t, ev, mods))));
        keys_find_their_places(t, ev, mods);
    }
}

proof fn lemma_splitting_fits(
    m: OutlineModel,
    ev: KeyEvent,
    mods: Modifiers,
    id: Uuid,
    now: u64,
    n: int,
)
    requires
        bullets_wf(m.bullets),
        all_at_ease(m.bullets, ev, mods, n),
        0 < n,
    ensures
        m.split(id, now).fits,
{
    lemma_bullet_pos(m.bullets, m.focused, 0);
    if m.has_focus() {
        let t = m.bullets[m.at()].text;
        let none = Seq::<u8>::empty();
        assert(at_ease(t, ev, mods, n));
        encode_utf8_valid_utf8(Seq::empty());
        assert(utf8(Seq::empty()) =~= none);
        assert((t.doc.sels.items.len() * none.len()) as int == 0);
        assert(t.doc.room(0));
        selections_apart_can_be_typed_over(t, none);
    }
}

proof fn lemma_caret_wf(t: TextModel, at: int)
    requires
        t.wf(),
        boundary(t.doc.text, at),
        t.doc.text.len() <= usize::MAX,
    ensures
        caret_put(t, at).wf(),
{
    lemma_place_at(t.doc.text, at);
    let s = caret_put(t, at).doc.sels.items[0];
    assert(placed(t.doc.text, s));
}

proof fn lemma_caret_at_ease(t: TextModel, at: int, ev: KeyEvent, mods: Modifiers, n: int)
    requires
        t.wf(),
        at_ease(t, ev, mods, n),
        0 < n,
    ensures
        at_ease(caret_put(t, at), ev, mods, n),
{
    let c = caret_put(t, at);
    assert(c.doc.sels.items.len() == 1);
    assert(c.doc.links == t.doc.links && c.doc.text == t.doc.text);
    assert(c.doc.room(n));
}

proof fn lemma_deleting_at_ease(m: OutlineModel, id: Uuid, ev: KeyEvent, mods: Modifiers, n: int)
    requires
        m.wf(),
        all_at_ease(m.bullets, ev, mods, n),
        0 < n,
    ensures
        all_at_ease(m.selection_deleted(id).m.bullets, ev, mods, n),
        bullets_wf(m.selection_deleted(id).m.bullets),
{
    let r = m.selection_deleted(id).m;
    if let Some((lo, hi)) = m.selected() {
        let s = m.selection.unwrap();
        lemma_bullet_pos(m.bullets, s.anchor_id, 0);
        lemma_bullet_pos(m.bullets, s.head_id, 0);
        let rest = m.bullets.subrange(0, lo) + m.bullets.subrange(hi + 1, m.bullets.len() as int);
        assert(at_ease(m.bullets[0].text, ev, mods, n));
        if rest.len() == 0 {
            let t = zoomed(TextModel::fresh(Seq::empty()), m.scale);
            encode_utf8_valid_utf8(Seq::empty());
            assert(utf8(Seq::empty()) =~= Seq::<u8>::empty());
            assert(boundary(Seq::empty(), 0));
            assert(t.doc.room(n));
            assert(at_ease(t, ev, mods, n));
            assert(t.wf());
        } else {
            let adopted = readopted(rest, lo);
            assert forall|i: int| 0 <= i < rest.len() implies at_ease(
                (#[trigger] adopted[i]).text,
                ev,
                mods,
                n,
            ) && adopted[i].text.wf() by {
                let k = if i < lo {
                    i
                } else {
                    i + hi + 1 - lo
                };
                assert(adopted[i].text == m.bullets[k].text);
                assert(at_ease(m.bullets[k].text, ev, mods, n));
            }
            let (k, at) = if lo > 0 {
                (lo - 1, rest[lo - 1].text.doc.text.len() as int)
            } else {
                (0int, 0int)
            };
            let t = adopted[k].text;
            lemma_boundary_ends(t.doc.text);
            lemma_caret_at_ease(t, at, ev, mods, n);
            lemma_caret_wf(t, at);
            assert forall|i: int| 0 <= i < r.bullets.len() implies at_ease(
                (#[trigger] r.bullets[i]).text,
                ev,
                mods,
                n,
            ) && r.bullets[i].text.wf() by {
                if i != k {
                    assert(r.bullets[i] == adopted[i]);
                }
            }
        }
    }
}

/// Every key can be taken by an outline all of whose texts are at ease and whose bullets
/// are not as deep as the machine can count.
pub proof fn outlines_at_ease_take_every_key(
    m: OutlineModel,
    ev: KeyEvent,
    mods: Modifiers,
    ids: (Uuid, Uuid),
    now: u64,
    n: int,
)
    requires
        m.wf(),
        0 < n,
        forall|i: int|
            0 <= i < m.bullets.len() ==> at_ease((#[trigger] m.bullets[i]).text, ev, mods, n)
                && m.bullets[i].depth < u32::MAX,
    ensures
        m.after_key(ev, mods, ids, now).fits,
{
    let deleted = m.selection_deleted(ids.0).m;
    assert(all_at_ease(m.bullets, ev, mods, n));
    lemma_deleting_at_ease(m, ids.0, ev, mods, n);
    lemma_typing_fits(m, ev, mods, now, n);
    lemma_typing_fits(deleted, ev, mods, now, n);
    lemma_splitting_fits(m, ev, mods, ids.0, now, n);
    lemma_splitting_fits(deleted, ev, mods, ids.1, now, n);
    lemma_bullet_pos(m.bullets, m.focused, 0);
    assert(m.merged_up().fits) by {
        if m.merged_up().done {
            let i = m.at();
            assert(at_ease(m.bullets[i].text, ev, mods, n));
            assert(at_ease(m.bullets[i - 1].text, ev, mods, n));
        }
    }
    assert(m.indented().fits);
    assert(m.selection_indented().fits);
}

} // verus!
