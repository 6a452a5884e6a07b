//! HTML that other apps put on the clipboard: lists become outlines, the rest
//! text with links.
use html5ever::tendril::TendrilSink;
use markup5ever_rcdom::{NodeData, RcDom};
use vstd::prelude::*;
use vstd::utf8::*;

use crate::text;
use crate::cell::common::Link;
use crate::cell::urls::solid_end;
use crate::cell::wrap::{
    first_solid, lemma_next_boundary, lemma_trimmed_end, next_char_boundary, solid_from,
    trim_end_at, trimmed_end,
};
use crate::clipboard::{BulletPayload, ClipBullet, KeptPayload, PayloadModel, SerLink};
use crate::clipboard::payload::payload_view;
use crate::text::{boundary, folded, lemma_boundary_ends, lemma_utf8_valid, occurs_at, utf8, views};
use crate::tree::{
    below, end_of, flat, flat_all, grown, items_view, lemma_below, lemma_flat_all_push,
    trees_written_down_grow_back, Item, TreeModel,
};
use crate::words::{
    joined, joined_words_are_split_again, lemma_joined_push, lemma_words_of, words_from_place,
    words_of,
};

verus! {

// ---------------------------------------------------------------------------
// The document
// ---------------------------------------------------------------------------

/// A node of a document: an element with its name and attributes, a piece of text,
/// or something else.
pub struct HtmlNode {
    pub name: Option<String>,
    pub attrs: Vec<(String, String)>,
    pub text: String,
}

/// A node of a document.
#[verifier::ext_equal]
pub struct HtmlModel {
    pub name: Option<Seq<u8>>,
    pub attrs: Seq<(Seq<u8>, Seq<u8>)>,
    pub text: Seq<u8>,
}

/// A node with all below it.
pub type HtmlTree = TreeModel<HtmlModel>;

impl View for HtmlNode {
    type V = HtmlModel;

    open spec fn view(&self) -> HtmlModel {
        HtmlModel {
            name: match self.name {
                Some(n) => Some(utf8(n@)),
                None => None,
            },
            attrs: attrs_view(self.attrs@),
            text: utf8(self.text@),
        }
    }
}

/// Attributes as they are modelled.
pub open spec fn attrs_view(attrs: Seq<(String, String)>) -> Seq<(Seq<u8>, Seq<u8>)> {
    Seq::new(attrs.len(), |i: int| (utf8(attrs[i].0@), utf8(attrs[i].1@)))
}

/// `markup5ever_rcdom::RcDom`.
#[verifier::external_type_specification]
#[verifier::external_body]
pub struct ExRcDom(RcDom);

/// The nodes that a document of `markup5ever_rcdom` holds, from its root on.
pub uninterp spec fn dom_held(dom: RcDom) -> HtmlTree;

/// The document that `html5ever` reads out of HTML.
pub uninterp spec fn html_read(html: Seq<u8>) -> Option<HtmlTree>;

/// The node to which a path leads: at each node, which of those right below it to
/// take.
pub open spec fn led_to(t: HtmlTree, path: Seq<usize>) -> Option<HtmlTree>
    decreases path.len(),
{
    if path.len() == 0 {
        Some(t)
    } else {
        match led_to(t, path.drop_last()) {
            Some(u) => if path.last() < u.inner.len() {
                Some(u.inner[path.last() as int])
            } else {
                None
            },
            None => None,
        }
    }
}

/// `html5ever::parse_document` to an `RcDom`: the document that HTML spells.
#[verifier::external_body]
fn read_html(html: &str) -> (dom: Option<RcDom>)
    ensures
        (match dom {
            Some(d) => Some(dom_held(d)),
            None => None,
        }) == html_read(utf8(html@)),
{
    let parser = html5ever::parse_document(RcDom::default(), Default::default()).from_utf8();
    parser.read_from(&mut html.as_bytes()).ok()
}

/// `Node::children` of the node to which the path leads: how many there are.
#[verifier::external_body]
fn children_in(dom: &RcDom, path: &Vec<usize>) -> (n: usize)
    requires
        led_to(dom_held(*dom), path@) is Some,
    ensures
        n == led_to(dom_held(*dom), path@)->0.inner.len(),
{
    let mut node = dom.document.clone();
    for i in path {
        let next = node.children.borrow()[*i].clone();
        node = next;
    }
    let n: usize = node.children.borrow().len();
    n
}

/// `Node::data` of the node to which the path leads: the local names of an element
/// and of its attributes, in their order, and the text of a piece of text.
#[verifier::external_body]
fn node_in(dom: &RcDom, path: &Vec<usize>) -> (n: HtmlNode)
    requires
        led_to(dom_held(*dom), path@) is Some,
    ensures
        n@ == led_to(dom_held(*dom), path@)->0.item,
{
    let mut node = dom.document.clone();
    for i in path {
        let next = node.children.borrow()[*i].clone();
        node = next;
    }
    let (mut name, mut attrs, mut text) = (None, Vec::new(), String::new());
    if let NodeData::Element { name: n, attrs: a, .. } = &node.data {
        name = Some(n.local.to_string());
        attrs.extend(a.borrow().iter().map(|a| (a.name.local.to_string(), a.value.to_string())));
    } else if let NodeData::Text { contents } = &node.data {
        text = contents.borrow().to_string();
    }
    HtmlNode { name, attrs, text }
}

/// Writes down the node to which the path leads, and all below it.
fn write_down(dom: &RcDom, path: &mut Vec<usize>, out: &mut Vec<Item<HtmlNode>>)
    requires
        led_to(dom_held(*dom), old(path)@) is Some,
    ensures
        final(path)@ == old(path)@,
        items_view(final(out)@) == items_view(old(out)@) + flat(
            led_to(dom_held(*dom), old(path)@)->0,
            old(path)@.len() as int,
        ),
    decreases led_to(dom_held(*dom), old(path)@)->0,
{
    let ghost way = path@;
    let ghost t = led_to(dom_held(*dom), way)->0;
    let ghost depth = way.len() as int;
    let ghost start = items_view(out@);
    let item = node_in(dom, path);
    let n: usize = children_in(dom, path);
    out.push(Item { depth: path.len(), item });
    assert(items_view(out@) =~= start + seq![(depth, t.item)]);
    let mut i: usize = 0;
    while i < n
        invariant
            i <= n,
            n == t.inner.len(),
            way == old(path)@,
            path@ == way,
            depth == way.len(),
            led_to(dom_held(*dom), way) == Some(t),
            items_view(out@) == start + seq![(depth, t.item)] + flat_all(
                t.inner.subrange(0, i as int),
                depth + 1,
            ),
        decreases n - i,
    {
        let ghost c = t.inner[i as int];
        path.push(i);
        assert(path@.drop_last() =~= way);
        assert(led_to(dom_held(*dom), path@) == Some(c));
        assert(decreases_to!(t => t.inner[i as int]));
        write_down(dom, path, out);
        path.pop();
        assert(path@ =~= way);
        proof {
            let before = t.inner.subrange(0, i as int);
            lemma_flat_all_push(before, c, depth + 1);
            assert(t.inner.subrange(0, i + 1) =~= before.push(c));
            assert(items_view(out@) =~= start + seq![(depth, t.item)] + flat_all(
                t.inner.subrange(0, i + 1),
                depth + 1,
            ));
        }
        i += 1;
    }
    assert(t.inner.subrange(0, i as int) =~= t.inner);
    assert(items_view(out@) =~= start + flat(t, depth));
}

/// The element has that name, letter case aside.
pub open spec fn is_named(n: HtmlModel, name: Seq<char>) -> bool {
    n.name matches Some(x) && folded(x) == folded(utf8(name))
}

/// The element is a list.
pub open spec fn is_list(n: HtmlModel) -> bool {
    is_named(n, "ul"@) || is_named(n, "ol"@)
}

/// The first attribute, from `k` on, of that name, letter case aside.
pub open spec fn attr_at(attrs: Seq<(Seq<u8>, Seq<u8>)>, key: Seq<u8>, k: int) -> int
    decreases attrs.len() - k,
{
    if k < 0 || k >= attrs.len() {
        attrs.len() as int
    } else if folded(attrs[k].0) == folded(key) {
        k
    } else {
        attr_at(attrs, key, k + 1)
    }
}

/// Where an anchor leads to; nothing where it leads nowhere.
pub open spec fn href(n: HtmlModel) -> Seq<u8> {
    let k = attr_at(n.attrs, utf8("href"@), 0);
    if k < n.attrs.len() {
        n.attrs[k].1
    } else {
        Seq::empty()
    }
}

impl HtmlNode {
    fn is_named(&self, name: &str) -> (r: bool)
        ensures
            r == is_named(self@, name@),
    {
        match &self.name {
            Some(n) => text::same_folded(n.as_str(), name),
            None => false,
        }
    }

    fn is_list(&self) -> (r: bool)
        ensures
            r == is_list(self@),
    {
        self.is_named("ul") || self.is_named("ol")
    }

    fn href(&self) -> (url: String)
        ensures
            utf8(url@) == href(self@),
    {
        let ghost attrs = self@.attrs;
        let ghost key = utf8("href"@);
        let mut k: usize = 0;
        while k < self.attrs.len()
            invariant
                k <= self.attrs.len(),
                attrs == attrs_view(self.attrs@),
                key == utf8("href"@),
                attr_at(attrs, key, 0) == attr_at(attrs, key, k as int),
                self@.attrs == attrs,
            decreases self.attrs.len() - k,
        {
            if text::same_folded(self.attrs[k].0.as_str(), "href") {
                return text::copy(self.attrs[k].1.as_str());
            }
            k += 1;
        }
        let none = String::new();
        assert(utf8(none@) =~= Seq::<u8>::empty());
        none
    }
}

// ---------------------------------------------------------------------------
// Text
// ---------------------------------------------------------------------------

/// A text and the links in it.
#[verifier::ext_equal]
pub struct Gathered {
    pub text: Seq<u8>,
    pub links: Seq<Link>,
}

impl Gathered {
    /// With more text behind it.
    pub open spec fn saying(self, more: Seq<u8>) -> Gathered {
        Gathered { text: self.text + more, ..self }
    }

    /// With the text behind `from` linked to `url`, where there is any.
    pub open spec fn linking(self, from: int, url: Seq<u8>) -> Gathered {
        if self.text.len() > from && url.len() > 0 {
            Gathered {
                links: self.links.push(Link { start: from, end: self.text.len() as int, url }),
                ..self
            }
        } else {
            self
        }
    }
}

/// The text of a node and all below it gathered behind `g`; without that of lists,
/// where they are to be left out.
pub open spec fn gathered(t: HtmlTree, g: Gathered, but_lists: bool) -> Gathered
    decreases t,
{
    if but_lists && is_list(t.item) {
        g
    } else if is_named(t.item, "a"@) {
        gathered_all(t.inner, g, but_lists).linking(g.text.len() as int, href(t.item))
    } else if is_named(t.item, "br"@) {
        g.saying(seq![10u8])
    } else {
        gathered_all(t.inner, g.saying(t.item.text), but_lists)
    }
}

/// The text of nodes gathered in order.
pub open spec fn gathered_all(ts: Seq<HtmlTree>, g: Gathered, but_lists: bool) -> Gathered
    decreases ts,
{
    if ts.len() == 0 {
        g
    } else {
        gathered_all(
            ts.subrange(1, ts.len() as int),
            gathered(ts[0], g, but_lists),
            but_lists,
        )
    }
}

/// The node at `at` with all below it, up to `end`.
pub open spec fn tree_at(items: Seq<(int, HtmlModel)>, at: int, end: int) -> HtmlTree {
    TreeModel { item: items[at].1, inner: grown(items, at + 1, end) }
}

proof fn lemma_next(items: Seq<(int, HtmlModel)>, at: int, end: int)
    requires
        0 <= at < end <= items.len(),
    ensures
        ({
            let e = below(items, items[at].0, at + 1, end);
            let ts = grown(items, at, end);
            &&& at < e <= end
            &&& ts.len() > 0
            &&& ts[0] == tree_at(items, at, e)
            &&& ts.subrange(1, ts.len() as int) == grown(items, e, end)
        }),
{
    let e = below(items, items[at].0, at + 1, end);
    lemma_below(items, items[at].0, at + 1, end);
    let ts = grown(items, at, end);
    assert(ts == seq![tree_at(items, at, e)] + grown(items, e, end));
    assert(ts.subrange(1, ts.len() as int) =~= grown(items, e, end));
}

fn push_newline(s: &mut String)
    ensures
        utf8(final(s)@) == utf8(old(s)@) + seq![10u8],
{
    proof {
        reveal_strlit("\n");
        is_ascii_chars_encode_utf8("\n"@);
        assert(utf8("\n"@) =~= seq![10u8]);
    }
    text::push_str(s, "\n");
}

/// What is gathered, as it is modelled.
pub open spec fn gathered_view(text: String, links: Seq<SerLink>) -> Gathered {
    Gathered { text: utf8(text@), links: views(links) }
}

fn gather(
    items: &Vec<Item<HtmlNode>>,
    at: usize,
    end: usize,
    but_lists: bool,
    text: &mut String,
    links: &mut Vec<SerLink>,
)
    requires
        at < end <= items@.len(),
    ensures
        gathered_view(*final(text), final(links)@) == gathered(
            tree_at(items_view(items@), at as int, end as int),
            gathered_view(*old(text), old(links)@),
            but_lists,
        ),
    decreases end - at, 0int,
{
    let ghost vs = items_view(items@);
    assert(vs[at as int] == items@[at as int]@);
    let node = &items[at].item;
    if but_lists && node.is_list() {
        return ;
    }
    if node.is_named("a") {
        let url = node.href();
        let start: usize = text::len(text.as_str());
        gather_all(items, at + 1, end, but_lists, text, links);
        let stop: usize = text::len(text.as_str());
        if stop > start && text::len(url.as_str()) > 0 {
            let ghost prev = links@;
            links.push(SerLink { start, end: stop, url });
            assert(views(links@) =~= views(prev).push(links@.last()@));
        }
        return ;
    }
    if node.is_named("br") {
        push_newline(text);
        return ;
    }
    text::push_str(text, node.text.as_str());
    gather_all(items, at + 1, end, but_lists, text, links);
}

fn gather_all(
    items: &Vec<Item<HtmlNode>>,
    from: usize,
    end: usize,
    but_lists: bool,
    text: &mut String,
    links: &mut Vec<SerLink>,
)
    requires
        from <= end <= items@.len(),
    ensures
        gathered_view(*final(text), final(links)@) == gathered_all(
            grown(items_view(items@), from as int, end as int),
            gathered_view(*old(text), old(links)@),
            but_lists,
        ),
    decreases end - from, 1int,
{
    let ghost vs = items_view(items@);
    let ghost g = gathered_view(*text, links@);
    let mut at: usize = from;
    while at < end
        invariant
            from <= at <= end,
            end <= items@.len(),
            vs == items_view(items@),
            gathered_all(grown(vs, from as int, end as int), g, but_lists) == gathered_all(
                grown(vs, at as int, end as int),
                gathered_view(*text, links@),
                but_lists,
            ),
        decreases end - at,
    {
        assert(vs[at as int] == items@[at as int]@);
        let e: usize = end_of(items, items[at].depth, at + 1, end);
        proof {
            lemma_next(vs, at as int, end as int);
        }
        gather(items, at, e, but_lists, text, links);
        at = e;
    }
    assert(grown(vs, at as int, end as int).len() == 0);
}

// ---------------------------------------------------------------------------
// White space
// ---------------------------------------------------------------------------

/// A text with its white space made simple: one space between words, none around
/// them.
pub open spec fn simple_spaced(b: Seq<u8>) -> Seq<u8> {
    joined(words_of(b))
}

/// To make the white space of a text simple again changes nothing.
pub proof fn simple_white_space_stays(b: Seq<u8>)
    requires
        valid_utf8(b),
    ensures
        simple_spaced(simple_spaced(b)) == simple_spaced(b),
        words_of(simple_spaced(b)) == words_of(b),
{
    lemma_words_of(b);
    joined_words_are_split_again(words_of(b));
}

/// Where the word at `from` ends.
pub fn word_end(s: &str, from: usize) -> (e: usize)
    requires
        from <= utf8(s@).len(),
        boundary(utf8(s@), from as int),
    ensures
        e == solid_end(utf8(s@), from as int),
        from <= e <= utf8(s@).len(),
        boundary(utf8(s@), e as int),
{
    let ghost b = utf8(s@);
    let n: usize = text::len(s);
    let mut p: usize = from;
    proof {
        lemma_utf8_valid(s@);
    }
    while p < n && !text::is_white(text::get_char(s, p))
        invariant
            b == utf8(s@),
            valid_utf8(b),
            n == b.len(),
            from <= p <= n,
            boundary(b, p as int),
            solid_end(b, from as int) == solid_end(b, p as int),
        decreases n - p,
    {
        proof {
            lemma_next_boundary(b, p as int);
        }
        p = next_char_boundary(s, p);
    }
    p
}

/// Makes the white space of a text simple: one space between words, none around
/// them.
pub fn trim_normalize(s: &str) -> (r: String)
    ensures
        utf8(r@) == simple_spaced(utf8(s@)),
{
    let ghost b = utf8(s@);
    let n: usize = text::len(s);
    let mut out = String::new();
    let mut p: usize = 0;
    let ghost mut ws: Seq<Seq<u8>> = Seq::empty();
    proof {
        lemma_utf8_valid(s@);
        lemma_boundary_ends(b);
        assert(utf8(out@) =~= Seq::<u8>::empty());
        assert(ws + words_of(b) =~= words_of(b));
        reveal_strlit(" ");
        is_ascii_chars_encode_utf8(" "@);
        assert(utf8(" "@) =~= seq![32u8]);
    }
    let mut more: bool = true;
    while more
        invariant
            b == utf8(s@),
            n == b.len(),
            p <= n,
            boundary(b, p as int),
            boundary(b, n as int),
            utf8(" "@) == seq![32u8],
            utf8(out@) == joined(ws),
            forall|i: int| 0 <= i < ws.len() ==> (#[trigger] ws[i]).len() > 0,
            more ==> words_of(b) == ws + words_from_place(b, p as int),
            !more ==> words_of(b) == ws,
        decreases
            n - p,
            if more {
                1int
            } else {
                0int
            },
    {
        let w: usize = solid_from(s, p, n);
        let e: usize = word_end(s, w);
        if w < e {
            let ghost acc = utf8(out@);
            if text::len(out.as_str()) > 0 {
                text::push_str(&mut out, " ");
            }
            text::push_str(&mut out, text::slice(s, w, e));
            proof {
                let word = b.subrange(w as int, e as int);
                lemma_joined_push(ws, word);
                if ws.len() > 0 {
                    assert(ws[0].len() > 0);
                }
                assert(utf8(out@) =~= joined(ws.push(word)));
                assert(words_of(b) =~= ws.push(word) + words_from_place(b, e as int));
                ws = ws.push(word);
            }
            p = e;
        } else {
            assert(words_from_place(b, p as int).len() == 0);
            assert(words_of(b) =~= ws);
            more = false;
        }
    }
    out
}

/// The first place, from `k` on, at which `p` occurs.
pub open spec fn occurrence(b: Seq<u8>, p: Seq<u8>, k: int) -> Option<int>
    decreases b.len() + 1 - k,
{
    if k < 0 || k > b.len() {
        None
    } else if occurs_at(b, p, k) {
        Some(k)
    } else {
        occurrence(b, p, k + 1)
    }
}

/// An occurrence that no other is in front of is the first.
pub proof fn lemma_occurrence(b: Seq<u8>, p: Seq<u8>, k: int, i: int)
    requires
        0 <= k <= i,
        occurs_at(b, p, i),
        forall|j: int| j < i ==> !occurs_at(b, p, j),
    ensures
        occurrence(b, p, k) == Some(i),
    decreases i - k,
{
    if k < i {
        assert(!occurs_at(b, p, k));
        lemma_occurrence(b, p, k + 1, i);
    }
}

/// Where nothing occurs, nothing is found.
pub proof fn lemma_no_occurrence(b: Seq<u8>, p: Seq<u8>, k: int)
    requires
        forall|j: int| !occurs_at(b, p, j),
    ensures
        occurrence(b, p, k) is None,
    decreases b.len() + 1 - k,
{
    if 0 <= k <= b.len() {
        assert(!occurs_at(b, p, k));
        lemma_no_occurrence(b, p, k + 1);
    }
}

/// The place at which `p` first occurs in `s`.
pub fn first_occurrence(s: &str, p: &str) -> (r: Option<usize>)
    ensures
        (match r {
            Some(i) => Some(i as int),
            None => None,
        }) == occurrence(utf8(s@), utf8(p@), 0),
        r matches Some(i) ==> i + utf8(p@).len() <= utf8(s@).len(),
{
    let r = text::find(s, p);
    proof {
        match r {
            Some(i) => {
                lemma_occurrence(utf8(s@), utf8(p@), 0, i as int);
            },
            None => {
                lemma_no_occurrence(utf8(s@), utf8(p@), 0);
            },
        }
    }
    r
}

/// A link of a text, found again in the text with simple white space: where the
/// words that it is on first occur.
pub open spec fn link_rebased(simple: Seq<u8>, raw: Seq<u8>, l: Link) -> Option<Link> {
    if 0 <= l.start < l.end <= raw.len() && boundary(raw, l.start) && boundary(raw, l.end) {
        let words = simple_spaced(raw.subrange(l.start, l.end));
        if words.len() == 0 {
            None
        } else {
            match occurrence(simple, words, 0) {
                Some(at) => Some(Link { start: at, end: at + words.len(), url: l.url }),
                None => None,
            }
        }
    } else {
        None
    }
}

/// The first `n` links of a text, found again.
pub open spec fn links_rebased(
    simple: Seq<u8>,
    raw: Seq<u8>,
    links: Seq<Link>,
    n: int,
) -> Seq<Link>
    decreases n,
{
    if n <= 0 {
        Seq::empty()
    } else {
        let before = links_rebased(simple, raw, links, n - 1);
        match link_rebased(simple, raw, links[n - 1]) {
            Some(l) => before.push(l),
            None => before,
        }
    }
}

fn rebase_links(simple: &str, raw: &str, links: &Vec<SerLink>) -> (out: Vec<SerLink>)
    ensures
        views(out@) == links_rebased(
            utf8(simple@),
            utf8(raw@),
            views(links@),
            links@.len() as int,
        ),
{
    let ghost ls = views(links@);
    let n: usize = text::len(raw);
    let most: usize = text::len(simple);
    let mut out: Vec<SerLink> = Vec::new();
    assert(views(out@) =~= Seq::empty());
    let mut i: usize = 0;
    while i < links.len()
        invariant
            i <= links.len(),
            n == utf8(raw@).len(),
            most == utf8(simple@).len(),
            ls == views(links@),
            views(out@) == links_rebased(utf8(simple@), utf8(raw@), ls, i as int),
        decreases links.len() - i,
    {
        let l = &links[i];
        assert(ls[i as int] == l@);
        if l.start < l.end && l.end <= n && text::is_boundary(raw, l.start) && text::is_boundary(
            raw,
            l.end,
        ) {
            let words = trim_normalize(text::slice(raw, l.start, l.end));
            let m: usize = text::len(words.as_str());
            if m > 0 {
                if let Some(at) = first_occurrence(simple, words.as_str()) {
                    let ghost prev = views(out@);
                    out.push(SerLink { start: at, end: at + m, url: text::copy(l.url.as_str()) });
                    assert(views(out@) =~= prev.push(out@.last()@));
                }
            }
        }
        i += 1;
    }
    out
}

// ---------------------------------------------------------------------------
// Lists
// ---------------------------------------------------------------------------

/// What is found in a document: bullets, and text outside lists.
#[verifier::ext_equal]
pub struct Found {
    pub bullets: Seq<ClipBullet>,
    pub plain: Gathered,
}

/// One level deeper.
pub open spec fn deeper(depth: i32) -> i32 {
    if depth < i32::MAX {
        (depth + 1) as i32
    } else {
        depth
    }
}

/// The bullet that a list item says at that depth, if it says anything.
pub open spec fn item_bullet(t: HtmlTree, depth: i32) -> Option<ClipBullet> {
    let raw = gathered(t, Gathered { text: Seq::empty(), links: Seq::empty() }, true);
    let text = simple_spaced(raw.text);
    if text.len() > 0 && depth >= 0 {
        Some(
            ClipBullet {
                depth: depth as u32,
                text,
                links: links_rebased(text, raw.text, raw.links, raw.links.len() as int),
            },
        )
    } else {
        None
    }
}

/// What is found in a node and all below it, behind `f`; the items of a list that
/// the node is stand at `depth`.
pub open spec fn walked(t: HtmlTree, depth: i32, f: Found) -> Found
    decreases t, 0int,
{
    if is_list(t.item) {
        walked_all(t.inner, depth, f)
    } else if is_named(t.item, "li"@) {
        let g = match item_bullet(t, depth) {
            Some(b) => Found { bullets: f.bullets.push(b), ..f },
            None => f,
        };
        walked_lists(t.inner, depth, g)
    } else if is_named(t.item, "br"@) {
        Found { plain: f.plain.saying(seq![10u8]), ..f }
    } else if is_named(t.item, "p"@) {
        let plain = if f.plain.text.len() > 0 && f.plain.text.last() != 10 {
            f.plain.saying(seq![10u8])
        } else {
            f.plain
        };
        Found { plain: gathered_all(t.inner, plain, false), ..f }
    } else if is_named(t.item, "a"@) {
        Found { plain: gathered(t, f.plain, false), ..f }
    } else {
        walked_all(t.inner, depth, Found { plain: f.plain.saying(t.item.text), ..f })
    }
}

/// What is found in nodes; a list among them is one level deeper.
pub open spec fn walked_all(ts: Seq<HtmlTree>, depth: i32, f: Found) -> Found
    decreases ts, 1int,
{
    if ts.len() == 0 {
        f
    } else {
        let d = if is_list(ts[0].item) {
            deeper(depth)
        } else {
            depth
        };
        walked_all(ts.subrange(1, ts.len() as int), depth, walked(ts[0], d, f))
    }
}

/// What is found in the lists among nodes, one level deeper.
pub open spec fn walked_lists(ts: Seq<HtmlTree>, depth: i32, f: Found) -> Found
    decreases ts, 1int,
{
    if ts.len() == 0 {
        f
    } else {
        walked_lists(
            ts.subrange(1, ts.len() as int),
            depth,
            if is_list(ts[0].item) {
                walked(ts[0], deeper(depth), f)
            } else {
                f
            },
        )
    }
}

struct Finds {
    bullets: Vec<BulletPayload>,
    text: String,
    links: Vec<SerLink>,
}

impl View for Finds {
    type V = Found;

    closed spec fn view(&self) -> Found {
        Found { bullets: views(self.bullets@), plain: gathered_view(self.text, self.links@) }
    }
}

fn one_deeper(depth: i32) -> (d: i32)
    ensures
        d == deeper(depth),
{
    if depth < i32::MAX {
        depth + 1
    } else {
        depth
    }
}

fn ends_line(s: &str) -> (r: bool)
    ensures
        r == (utf8(s@).len() > 0 && utf8(s@).last() == 10),
{
    let n: usize = text::len(s);
    n > 0 && text::byte_at(s, n - 1) == 10
}

fn read_item(items: &Vec<Item<HtmlNode>>, at: usize, end: usize, depth: i32) -> (b: Option<
    BulletPayload,
>)
    requires
        at < end <= items@.len(),
    ensures
        (match b {
            Some(b) => Some(b@),
            None => None,
        }) == item_bullet(tree_at(items_view(items@), at as int, end as int), depth),
{
    let mut raw = String::new();
    let mut links: Vec<SerLink> = Vec::new();
    assert(gathered_view(raw, links@) =~= Gathered { text: Seq::empty(), links: Seq::empty() });
    gather(items, at, end, true, &mut raw, &mut links);
    let text = trim_normalize(raw.as_str());
    if text::len(text.as_str()) > 0 && depth >= 0 {
        let links = rebase_links(text.as_str(), raw.as_str(), &links);
        Some(BulletPayload { depth: depth as u32, text, links })
    } else {
        None
    }
}

fn walk(items: &Vec<Item<HtmlNode>>, at: usize, end: usize, depth: i32, f: &mut Finds)
    requires
        at < end <= items@.len(),
    ensures
        final(f)@ == walked(
            tree_at(items_view(items@), at as int, end as int),
            depth,
            old(f)@,
        ),
    decreases end - at, 0int,
{
    let ghost vs = items_view(items@);
    let ghost t = tree_at(vs, at as int, end as int);
    let ghost before = f@;
    assert(vs[at as int] == items@[at as int]@);
    let node = &items[at].item;
    if node.is_list() {
        walk_all(items, at + 1, end, depth, f);
    } else if node.is_named("li") {
        if let Some(b) = read_item(items, at, end, depth) {
            let ghost prev = f.bullets@;
            f.bullets.push(b);
            assert(views(f.bullets@) =~= views(prev).push(b@));
        }
        walk_lists(items, at + 1, end, depth, f);
    } else if node.is_named("br") {
        push_newline(&mut f.text);
        assert(f@ =~= walked(t, depth, before));
    } else if node.is_named("p") {
        if text::len(f.text.as_str()) > 0 && !ends_line(f.text.as_str()) {
            push_newline(&mut f.text);
        }
        gather_all(items, at + 1, end, false, &mut f.text, &mut f.links);
        assert(f@ =~= walked(t, depth, before));
    } else if node.is_named("a") {
        gather(items, at, end, false, &mut f.text, &mut f.links);
        assert(f@ =~= walked(t, depth, before));
    } else {
        text::push_str(&mut f.text, node.text.as_str());
        assert(f@ =~= (Found { plain: before.plain.saying(t.item.text), ..before }));
        walk_all(items, at + 1, end, depth, f);
    }
}

fn walk_all(items: &Vec<Item<HtmlNode>>, from: usize, end: usize, depth: i32, f: &mut Finds)
    requires
        from <= end <= items@.len(),
    ensures
        final(f)@ == walked_all(
            grown(items_view(items@), from as int, end as int),
            depth,
            old(f)@,
        ),
    decreases end - from, 1int,
{
    let ghost vs = items_view(items@);
    let ghost g = f@;
    let mut at: usize = from;
    while at < end
        invariant
            from <= at <= end,
            end <= items@.len(),
            vs == items_view(items@),
            walked_all(grown(vs, from as int, end as int), depth, g) == walked_all(
                grown(vs, at as int, end as int),
                depth,
                f@,
            ),
        decreases end - at,
    {
        assert(vs[at as int] == items@[at as int]@);
        let e: usize = end_of(items, items[at].depth, at + 1, end);
        proof {
            lemma_next(vs, at as int, end as int);
        }
        let d: i32 = if items[at].item.is_list() {
            one_deeper(depth)
        } else {
            depth
        };
        walk(items, at, e, d, f);
        at = e;
    }
    assert(grown(vs, at as int, end as int).len() == 0);
}

fn walk_lists(items: &Vec<Item<HtmlNode>>, from: usize, end: usize, depth: i32, f: &mut Finds)
    requires
        from <= end <= items@.len(),
    ensures
        final(f)@ == walked_lists(
            grown(items_view(items@), from as int, end as int),
            depth,
            old(f)@,
        ),
    decreases end - from, 1int,
{
    let ghost vs = items_view(items@);
    let ghost g = f@;
    let mut at: usize = from;
    while at < end
        invariant
            from <= at <= end,
            end <= items@.len(),
            vs == items_view(items@),
            walked_lists(grown(vs, from as int, end as int), depth, g) == walked_lists(
                grown(vs, at as int, end as int),
                depth,
                f@,
            ),
        decreases end - at,
    {
        assert(vs[at as int] == items@[at as int]@);
        let e: usize = end_of(items, items[at].depth, at + 1, end);
        proof {
            lemma_next(vs, at as int, end as int);
        }
        if items[at].item.is_list() {
            walk(items, at, e, one_deeper(depth), f);
        }
        at = e;
    }
    assert(grown(vs, at as int, end as int).len() == 0);
}

// ---------------------------------------------------------------------------
// Documents
// ---------------------------------------------------------------------------

/// The offset `i` once `cut` bytes in front are gone.
pub open spec fn less(i: int, cut: int) -> int {
    if i > cut {
        i - cut
    } else {
        0
    }
}

/// The first `n` links of a text of which `cut` bytes in front are gone, and what
/// lies behind `len`; links that do not lie within are dropped.
pub open spec fn links_cut(links: Seq<Link>, cut: int, len: int, n: int) -> Seq<Link>
    decreases n,
{
    if n <= 0 {
        Seq::empty()
    } else {
        let before = links_cut(links, cut, len, n - 1);
        let l = links[n - 1];
        let (s, e) = (less(l.start, cut), less(l.end, cut));
        if s < e <= len {
            before.push(Link { start: s, end: e, url: l.url })
        } else {
            before
        }
    }
}

/// What a text is on the clipboard, without the white space around it; nothing
/// where there is no more to it.
pub open spec fn plain_found(g: Gathered) -> Option<PayloadModel> {
    let lead = first_solid(g.text, 0, g.text.len() as int);
    let end = trimmed_end(g.text, g.text.len() as int);
    if end <= lead {
        None
    } else {
        Some(
            PayloadModel::Text(
                g.text.subrange(lead, end),
                links_cut(g.links, lead, end - lead, g.links.len() as int),
            ),
        )
    }
}

/// What nodes are on the clipboard: the list items among them as an outline, where
/// there are any, else their text.
pub open spec fn trees_payload(ts: Seq<HtmlTree>) -> Option<PayloadModel> {
    let none = Found {
        bullets: Seq::empty(),
        plain: Gathered { text: Seq::empty(), links: Seq::empty() },
    };
    let f = walked_all(ts, (-1) as i32, none);
    if f.bullets.len() > 0 {
        Some(PayloadModel::Outline(f.bullets))
    } else {
        plain_found(f.plain)
    }
}

/// What a document that is written down node by node is on the clipboard.
pub open spec fn document_payload(items: Seq<(int, HtmlModel)>) -> Option<PayloadModel> {
    trees_payload(grown(items, 0, items.len() as int))
}

/// What HTML is on the clipboard.
pub open spec fn html_payload(html: Seq<u8>) -> Option<PayloadModel> {
    match html_read(html) {
        Some(t) => trees_payload(seq![t]),
        None => None,
    }
}

fn take_plain(s: &str, links: &Vec<SerLink>) -> (p: Option<KeptPayload>)
    ensures
        payload_view(p) == plain_found(Gathered { text: utf8(s@), links: views(links@) }),
{
    let ghost b = utf8(s@);
    let ghost ls = views(links@);
    let n: usize = text::len(s);
    proof {
        lemma_utf8_valid(s@);
        lemma_boundary_ends(b);
        lemma_trimmed_end(b, n as int);
    }
    let lead: usize = solid_from(s, 0, n);
    let end: usize = trim_end_at(s, n);
    if end <= lead {
        return None;
    }
    let len: usize = end - lead;
    let mut out: Vec<SerLink> = Vec::new();
    assert(views(out@) =~= Seq::empty());
    let mut i: usize = 0;
    while i < links.len()
        invariant
            i <= links.len(),
            ls == views(links@),
            views(out@) == links_cut(ls, lead as int, len as int, i as int),
        decreases links.len() - i,
    {
        let l = &links[i];
        assert(ls[i as int] == l@);
        let from: usize = if l.start > lead {
            l.start - lead
        } else {
            0
        };
        let to: usize = if l.end > lead {
            l.end - lead
        } else {
            0
        };
        if from < to && to <= len {
            let ghost prev = views(out@);
            out.push(SerLink { start: from, end: to, url: text::copy(l.url.as_str()) });
            assert(views(out@) =~= prev.push(out@.last()@));
        }
        i += 1;
    }
    Some(KeptPayload::Text { text: text::copy(text::slice(s, lead, end)), links: out })
}

/// What a document is on the clipboard.
pub fn payload_of_document(items: &Vec<Item<HtmlNode>>) -> (p: Option<KeptPayload>)
    ensures
        payload_view(p) == document_payload(items_view(items@)),
{
    let mut f = Finds { bullets: Vec::new(), text: String::new(), links: Vec::new() };
    assert(f@ =~= Found {
        bullets: Seq::empty(),
        plain: Gathered { text: Seq::empty(), links: Seq::empty() },
    });
    walk_all(items, 0, items.len(), -1, &mut f);
    if f.bullets.len() > 0 {
        Some(KeptPayload::Outline { bullets: f.bullets })
    } else {
        take_plain(f.text.as_str(), &f.links)
    }
}

/// What HTML is on the clipboard.
pub fn parse_html(html: &str) -> (p: Option<KeptPayload>)
    ensures
        payload_view(p) == html_payload(utf8(html@)),
{
    match read_html(html) {
        Some(dom) => {
            let ghost t = dom_held(dom);
            let mut path: Vec<usize> = Vec::new();
            let mut items: Vec<Item<HtmlNode>> = Vec::new();
            assert(led_to(t, path@) == Some(t));
            write_down(&dom, &mut path, &mut items);
            proof {
                let all = flat(t, 0);
                assert(items_view(items@) =~= all);
                assert(seq![t].subrange(1, 1) =~= Seq::empty());
                assert(flat_all(seq![t], 0) =~= all) by {
                    reveal_with_fuel(flat_all, 2);
                }
                assert(all.subrange(0, all.len() as int) =~= all);
                trees_written_down_grow_back(seq![t], 0, all, 0, all.len() as int);
            }
            payload_of_document(&items)
        },
        None => None,
    }
}

} // verus!
