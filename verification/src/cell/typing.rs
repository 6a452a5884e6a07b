//! What typing, erasing and pasting do at several carets at once.
use vstd::prelude::*;
use vstd::utf8::*;

use crate::cell::common::{
    apart, lemma_normalized_keeps, lemma_sort_fixed, normalized_is_disjoint_and_covers_the_same,
    sort_by_start, Affinity, EditModel, Key, KeyEvent, Modifiers, Selection, SelectionSet,
};
use crate::cell::model::{
    after_drag, after_key, after_mouse_down, after_mouse_up, edge_stepping, edited_selection,
    edits_fit, gather, insert_by_start_back, key_edits, landings, lemma_gather_replacing,
    lemma_insert_back_at, line_stepping, placed, replacing, right_to_left, stepping, word_stepping,
    Click, Doc, TextModel,
};
use crate::text::{lemma_splice_boundaries, lemma_splice_valid, occurs_at, spliced};

verus! {

/// The edits of `v` from its last to its first.
pub open spec fn backwards(v: Seq<Selection>, with: Seq<u8>) -> Seq<EditModel> {
    Seq::new(
        v.len(),
        |i: int|
            EditModel { start: v[v.len() - 1 - i].lo(), end: v[v.len() - 1 - i].hi(), with },
    )
}

proof fn lemma_insert_first(v: Seq<EditModel>, e: EditModel)
    requires
        forall|i: int| 0 <= i < v.len() ==> (#[trigger] v[i]).start < e.start,
    ensures
        insert_by_start_back(v, e) == seq![e] + v,
{
    lemma_insert_back_at(v, e, 0);
    assert(v.insert(0, e) =~= seq![e] + v);
}

/// Selections that lie apart are edited from the last to the first.
pub proof fn lemma_backwards(v: Seq<Selection>, with: Seq<u8>)
    requires
        apart(v),
    ensures
        right_to_left(gather(v, replacing(with))) == backwards(v, with),
    decreases v.len(),
{
    lemma_gather_replacing(v, with);
    if v.len() > 0 {
        let d = v.drop_last();
        assert(apart(d)) by {
            assert forall|i: int, j: int| 0 <= i < j < d.len() implies (#[trigger] d[i]).hi() < (
            #[trigger] d[j]).lo() by {
                assert(v[i].hi() < v[j].lo());
            }
        }
        lemma_backwards(d, with);
        lemma_gather_replacing(d, with);
        let all = gather(v, replacing(with));
        let e = EditModel { start: v.last().lo(), end: v.last().hi(), with };
        assert(all.last() == e);
        assert(all.drop_last() =~= gather(d, replacing(with)));
        assert forall|i: int| 0 <= i < backwards(d, with).len() implies (#[trigger] backwards(
            d,
            with,
        )[i]).start < e.start by {
            let s = v[d.len() - 1 - i];
            assert(s.hi() < v[v.len() - 1].lo());
            assert(s.lo() <= s.hi());
        }
        lemma_insert_first(backwards(d, with), e);
        assert(seq![e] + backwards(d, with) =~= backwards(v, with));
    } else {
        assert(backwards(v, with) =~= gather(v, replacing(with)));
    }
}

/// The text once each of `v` has been replaced by `with`.
pub open spec fn typed(text: Seq<u8>, v: Seq<Selection>, with: Seq<u8>) -> Seq<u8>
    decreases v.len(),
{
    if v.len() == 0 {
        text
    } else {
        typed(spliced(text, v.last().lo(), v.last().hi(), with), v.drop_last(), with)
    }
}

proof fn lemma_typed(text: Seq<u8>, v: Seq<Selection>, with: Seq<u8>)
    requires
        valid_utf8(text),
        valid_utf8(with),
        apart(v),
        forall|i: int| 0 <= i < v.len() ==> placed(text, #[trigger] v[i]),
    ensures
        edits_fit(text, backwards(v, with)),
    decreases v.len(),
{
    if v.len() > 0 {
        let last = v[v.len() - 1];
        let d = v.drop_last();
        let next = spliced(text, last.lo(), last.hi(), with);
        assert(placed(text, last));
        lemma_splice_valid(text, last.lo(), last.hi(), with);
        lemma_splice_boundaries(text, last.lo(), last.hi(), with);
        assert forall|i: int, j: int| 0 <= i < j < d.len() implies (#[trigger] d[i]).hi() < (
        #[trigger] d[j]).lo() by {
            assert(v[i].hi() < v[j].lo());
        }
        assert forall|i: int| 0 <= i < d.len() implies placed(next, #[trigger] d[i]) by {
            assert(placed(text, v[i]));
            assert(v[i].hi() < last.lo());
        }
        lemma_typed(next, d, with);
        assert(backwards(v, with)[0] == EditModel { start: last.lo(), end: last.hi(), with });
        assert(backwards(v, with).drop_first() =~= backwards(d, with));
    }
}

/// Whatever is typed or pasted at selections that lie apart, as normalizing
/// leaves them, goes into the text: every edit finds its place, as long as the
/// result fits the machine.
pub proof fn selections_apart_can_be_typed_over(m: TextModel, with: Seq<u8>)
    requires
        m.wf(),
        valid_utf8(with),
        m.doc.sels.disjoint(),
        m.doc.room((m.doc.sels.items.len() * with.len()) as int),
    ensures
        m.can_apply(m.edits(replacing(with))),
{
    let v = m.doc.sels.items;
    lemma_backwards(v, with);
    lemma_typed(m.doc.text, v, with);
    lemma_gather_replacing(v, with);
}

proof fn lemma_edited_by_apart(d: Doc, edits: Seq<EditModel>)
    requires
        d.sels.wf(),
        d.sels.disjoint(),
    ensures
        d.edited_by(edits).sels.disjoint(),
    decreases edits.len(),
{
    if edits.len() > 0 {
        let mapped = SelectionSet {
            items: Seq::new(
                d.sels.items.len(),
                |i: int| edited_selection(d.sels.items[i], edits[0]),
            ),
            primary: d.sels.primary,
        };
        normalized_is_disjoint_and_covers_the_same(mapped);
        lemma_normalized_keeps(mapped, |x: int| true);
        lemma_edited_by_apart(d.edited(edits[0]), edits.drop_first());
    }
}

proof fn lemma_moving_apart(m: TextModel, f: spec_fn(Selection) -> Selection)
    requires
        m.doc.sels.wf(),
    ensures
        m.moving(f).doc.sels.disjoint(),
{
    normalized_is_disjoint_and_covers_the_same(
        SelectionSet {
            items: Seq::new(m.doc.sels.items.len(), |i: int| f(m.doc.sels.items[i])),
            primary: m.doc.sels.primary,
        },
    );
}

/// Selections that lie apart still do after a key, whatever it moves, types or erases.
pub proof fn keys_keep_selections_apart(m: TextModel, ev: KeyEvent, mods: Modifiers, now: u64)
    requires
        m.wf(),
        m.doc.sels.disjoint(),
    ensures
        after_key(m, ev, mods, now).0.doc.sels.disjoint(),
{
    let b = m.doc.text;
    let forward = ev.key == Key::ArrowRight;
    let edits = key_edits(m, ev, mods);
    lemma_edited_by_apart(m.doc, right_to_left(edits));
    lemma_moving_apart(m, stepping(b, m.lines, forward, mods.shift));
    lemma_moving_apart(m, word_stepping(b, forward, mods.shift));
    lemma_moving_apart(m, line_stepping(b, m.lines, true, mods.shift));
    lemma_moving_apart(m, line_stepping(b, m.lines, false, mods.shift));
    lemma_moving_apart(m, edge_stepping(m.lines, true, mods.shift));
    lemma_moving_apart(m, edge_stepping(m.lines, false, mods.shift));
}

/// Selections lie apart, unless the mouse button is held down over them.
pub open spec fn at_rest(m: TextModel) -> bool {
    m.drag is None ==> m.doc.sels.disjoint()
}

/// Pressing, dragging and releasing the mouse button leave selections apart wherever the
/// button is not held down, and releasing it puts them apart.
pub proof fn the_mouse_leaves_selections_apart(
    m: TextModel,
    click: Click,
    mods: Modifiers,
    editing: bool,
    idx: usize,
    affinity: Affinity,
)
    requires
        m.wf(),
        at_rest(m),
    ensures
        at_rest(after_mouse_down(m, click, mods, editing)),
        at_rest(after_drag(m, idx, affinity)),
        after_mouse_up(m).doc.sels.disjoint(),
        after_mouse_up(m).drag is None,
{
    normalized_is_disjoint_and_covers_the_same(m.doc.sels);
}

proof fn lemma_edited_text(d: Doc, edits: Seq<EditModel>, v: Seq<Selection>, with: Seq<u8>)
    requires
        edits == backwards(v, with),
    ensures
        d.edited_by(edits).text == typed(d.text, v, with),
    decreases v.len(),
{
    if v.len() > 0 {
        let e = edits[0];
        assert(e == EditModel { start: v.last().lo(), end: v.last().hi(), with });
        assert(edits.drop_first() =~= backwards(v.drop_last(), with));
        lemma_edited_text(d.edited(e), edits.drop_first(), v.drop_last(), with);
    }
}

proof fn lemma_landings_push(v: Seq<Selection>, s: Selection, n: int, gained: int, lost: int)
    ensures
        landings(v.push(s), n, gained, lost).len() == v.len() + 1,
        landings(v.push(s), n, gained, lost).drop_last() == landings(v, n, gained, lost),
        landings(v.push(s), n, gained, lost).last() == ({
            let at = s.lo() + gained + v.len() * n - lost - selected(v);
            if at > 0 {
                at
            } else {
                0
            }
        }),
    decreases v.len(),
{
    let all = landings(v.push(s), n, gained, lost);
    if v.len() == 0 {
        assert(v.push(s).drop_first() =~= Seq::<Selection>::empty());
        assert(0 * n == 0) by (nonlinear_arith);
        reveal_with_fuel(landings, 2);
        assert(all.drop_last() =~= Seq::<int>::empty());
    } else {
        let d = v.drop_first();
        assert(v.push(s).drop_first() =~= d.push(s));
        lemma_landings_push(d, s, n, gained + n, lost + v[0].hi() - v[0].lo());
        let rest = landings(d.push(s), n, gained + n, lost + v[0].hi() - v[0].lo());
        assert(all.last() == rest.last());
        assert(v.len() * n == n + d.len() * n) by (nonlinear_arith)
            requires
                v.len() == d.len() + 1,
        ;
        assert(all.drop_last() =~= landings(v, n, gained, lost)) by {
            assert(rest.drop_last() == landings(
                d,
                n,
                gained + n,
                lost + v[0].hi() - v[0].lo(),
            ));
        }
    }
}

/// How much `v` selects.
pub open spec fn selected(v: Seq<Selection>) -> int
    decreases v.len(),
{
    if v.len() == 0 {
        0
    } else {
        v[0].hi() - v[0].lo() + selected(v.drop_first())
    }
}

proof fn lemma_selected(v: Seq<Selection>)
    requires
        apart(v),
    ensures
        v.len() > 0 ==> 0 <= selected(v) <= v.last().hi() - v[0].lo(),
        0 <= selected(v),
    decreases v.len(),
{
    if v.len() > 0 {
        let d = v.drop_first();
        assert forall|i: int, j: int| 0 <= i < j < d.len() implies (#[trigger] d[i]).hi() < (
        #[trigger] d[j]).lo() by {
            assert(v[i + 1].hi() < v[j + 1].lo());
        }
        lemma_selected(d);
        if d.len() > 0 {
            assert(v[0].hi() < v[1].lo());
        }
    }
}

proof fn lemma_selected_push(v: Seq<Selection>, s: Selection)
    ensures
        selected(v.push(s)) == selected(v) + s.hi() - s.lo(),
    decreases v.len(),
{
    if v.len() == 0 {
        reveal_with_fuel(selected, 2);
        assert(v.push(s).drop_first() =~= Seq::<Selection>::empty());
    } else {
        assert(v.push(s).drop_first() =~= v.drop_first().push(s));
        lemma_selected_push(v.drop_first(), s);
    }
}

/// How long the text is once `v` has been typed over, and what becomes of its
/// part behind `v`.
proof fn lemma_typed_tail(text: Seq<u8>, v: Seq<Selection>, with: Seq<u8>, from: int)
    requires
        apart(v),
        v.len() > 0 ==> v.last().hi() <= from,
        0 <= from <= text.len(),
    ensures
        typed(text, v, with).len() == text.len() - selected(v) + v.len() * with.len(),
        from - selected(v) + v.len() * with.len() >= 0,
        forall|k: int|
            #![trigger text[k]]
            from <= k < text.len() ==> typed(text, v, with)[k - selected(v) + v.len() * with.len()]
                == text[k],
    decreases v.len(),
{
    if v.len() == 0 {
        assert(0 * with.len() == 0) by (nonlinear_arith);
    } else {
        let last = v[v.len() - 1];
        let d = v.drop_last();
        let next = spliced(text, last.lo(), last.hi(), with);
        assert(d.push(last) =~= v);
        lemma_selected_push(d, last);
        assert forall|i: int, j: int| 0 <= i < j < d.len() implies (#[trigger] d[i]).hi() < (
        #[trigger] d[j]).lo() by {
            assert(v[i].hi() < v[j].lo());
        }
        if d.len() > 0 {
            assert(v[d.len() - 1].hi() < last.lo());
        }
        lemma_typed_tail(next, d, with, last.lo());
        assert(v.len() * with.len() == d.len() * with.len() + with.len()) by (nonlinear_arith)
            requires
                v.len() == d.len() + 1,
        ;
        let r = typed(text, v, with);
        assert(r == typed(next, d, with));
        assert forall|k: int| #![trigger text[k]] from <= k < text.len() implies r[k - selected(v)
            + v.len() * with.len()] == text[k] by {
            let j = k - (last.hi() - last.lo()) + with.len();
            assert(next[j] == text[k]);
        }
    }
}

/// A text pasted over selections that lie apart, as normalizing leaves them,
/// stands in the new text at each of the landings, where its links are put.
pub proof fn pasted_text_stands_at_its_landings(m: TextModel, with: Seq<u8>, now: u64, i: int)
    requires
        m.wf(),
        m.doc.sels.disjoint(),
        0 <= i < m.doc.sels.items.len(),
    ensures
        ({
            let at = landings(sort_by_start(m.doc.sels.items), with.len() as int, 0, 0);
            &&& at.len() == m.doc.sels.items.len()
            &&& occurs_at(m.applying(m.edits(replacing(with)), now).doc.text, with, at[i])
        }),
{
    let v = m.doc.sels.items;
    lemma_sort_fixed(v);
    lemma_backwards(v, with);
    lemma_gather_replacing(v, with);
    lemma_edited_text(m.doc, backwards(v, with), v, with);
    assert forall|k: int| 0 <= k < v.len() implies placed_in_front(m.doc.text, #[trigger] v[k]) by {
        assert(placed(m.doc.text, v[k]));
    }
    lemma_landed(m.doc.text, v, with, i);
}

/// Both ends of `s` lie within `text`.
spec fn placed_in_front(text: Seq<u8>, s: Selection) -> bool {
    0 <= s.lo() <= s.hi() <= text.len()
}

proof fn lemma_landed(next: Seq<u8>, v: Seq<Selection>, with: Seq<u8>, i: int)
    requires
        apart(v),
        forall|k: int| 0 <= k < v.len() ==> placed_in_front(next, #[trigger] v[k]),
        0 <= i < v.len(),
    ensures
        landings(v, with.len() as int, 0, 0).len() == v.len(),
        occurs_at(typed(next, v, with), with, landings(v, with.len() as int, 0, 0)[i]),
    decreases v.len(),
{
    let n = with.len() as int;
    let last = v[v.len() - 1];
    let d = v.drop_last();
    let after = spliced(next, last.lo(), last.hi(), with);
    let r = typed(next, v, with);
    assert(d.push(last) =~= v);
    assert(placed_in_front(next, last));
    lemma_landings_push(d, last, n, 0, 0);
    assert forall|a: int, b: int| 0 <= a < b < d.len() implies (#[trigger] d[a]).hi() < (
    #[trigger] d[b]).lo() by {
        assert(v[a].hi() < v[b].lo());
    }
    lemma_selected(d);
    if d.len() > 0 {
        assert(v[d.len() - 1].hi() < last.lo());
        assert(placed_in_front(next, v[0]));
    }
    assert(d.len() * n >= 0) by (nonlinear_arith)
        requires
            n >= 0,
    ;
    if i == v.len() - 1 {
        lemma_typed_tail(after, d, with, last.lo());
        let at = landings(v, n, 0, 0)[i];
        assert(at == last.lo() + d.len() * n - selected(d));
        assert(r.subrange(at, at + n) =~= with) by {
            assert forall|k: int| 0 <= k < n implies r[at + k] == with[k] by {
                assert(after[last.lo() + k] == with[k]);
            }
        }
    } else {
        assert forall|k: int| 0 <= k < d.len() implies placed_in_front(after, #[trigger] d[k]) by {
            assert(placed_in_front(next, v[k]));
            assert(v[k].hi() < last.lo());
        }
        lemma_landed(after, d, with, i);
        assert(landings(v, n, 0, 0).drop_last()[i] == landings(v, n, 0, 0)[i]);
    }
}

} // verus!
