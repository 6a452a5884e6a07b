//! What is on the clipboard, and the forms it takes there: HTML with the exact
//! payload hidden in it, HTML of other apps, and plain text.
pub mod anchors;
pub mod copied;
pub mod html;
pub mod markup;
pub mod pages;
pub mod payload;
pub mod plain;

use base64::Engine;
use vstd::prelude::*;
use vstd::utf8::*;

use crate::text;
use crate::cell::Cell;
use crate::cell::common::{Link, LinkSpan};
use crate::cell::reference::ReferenceTarget;
use crate::clipboard::html::{
    first_occurrence, html_payload, lemma_occurrence, occurrence, parse_html,
};
use crate::clipboard::markup::{
    bullets_placed, escape_attr, escape_text, escaped, linked_html, links_placed, lists_of,
    markup_html, render_outline, render_text_with_links,
};
use crate::clipboard::payload::{
    links_fit, payload_fits, payload_json, payload_of, payload_view, payloads_are_read_back,
};
use crate::clipboard::plain::{from_plain_text, plain_payload};
use crate::ids::{id_text, spelling, Uuid};
use crate::json::{json_parsed, json_stored, Json};
use crate::text::{
    first_byte, lemma_after_ascii, lemma_ascii_is_boundary, lemma_first_byte, lemma_first_byte_is,
    lemma_utf8_valid, occurs_at, utf8, views,
};

verus! {

// ---------------------------------------------------------------------------
// Payloads
// ---------------------------------------------------------------------------

/// A link as it is stored.
#[derive(Clone, Debug, PartialEq, Eq)]
pub struct SerLink {
    pub start: usize,
    pub end: usize,
    pub url: String,
}

/// A bullet on the clipboard.
#[derive(Clone, Debug, PartialEq, Eq)]
pub struct BulletPayload {
    pub depth: u32,
    pub text: String,
    pub links: Vec<SerLink>,
}

/// What a copied reference points at.
#[derive(Clone, Copy, Debug, PartialEq, Eq, Structural)]
pub enum SerTarget {
    Cell { cell_id: Uuid },
    Subtree { cell_id: Uuid, bullet_id: Uuid },
}

/// What is on the clipboard.
#[derive(Clone, Debug, PartialEq, Eq)]
pub enum KeptPayload {
    /// A text and its links.
    Text { text: String, links: Vec<SerLink> },
    /// Bullets of an outline.
    Outline { bullets: Vec<BulletPayload> },
    /// A reference to a cell, or to a part of one.
    Reference { target: SerTarget, snippet: String },
}

/// A bullet on the clipboard.
#[verifier::ext_equal]
pub struct ClipBullet {
    pub depth: u32,
    pub text: Seq<u8>,
    pub links: Seq<Link>,
}

/// What is on the clipboard.
#[verifier::ext_equal]
pub enum PayloadModel {
    Text(Seq<u8>, Seq<Link>),
    Outline(Seq<ClipBullet>),
    Reference(SerTarget, Seq<u8>),
}

impl View for SerLink {
    type V = Link;

    open spec fn view(&self) -> Link {
        Link { start: self.start as int, end: self.end as int, url: utf8(self.url@) }
    }
}

impl View for BulletPayload {
    type V = ClipBullet;

    open spec fn view(&self) -> ClipBullet {
        ClipBullet { depth: self.depth, text: utf8(self.text@), links: views(self.links@) }
    }
}

impl View for KeptPayload {
    type V = PayloadModel;

    open spec fn view(&self) -> PayloadModel {
        match self {
            KeptPayload::Text { text, links } => PayloadModel::Text(utf8(text@), views(links@)),
            KeptPayload::Outline { bullets } => PayloadModel::Outline(views(bullets@)),
            KeptPayload::Reference { target, snippet } => PayloadModel::Reference(
                *target,
                utf8(snippet@),
            ),
        }
    }
}

impl SerLink {
    /// The stored form of a link.
    pub fn from_span(s: &LinkSpan) -> (l: SerLink)
        ensures
            l@ == s@,
    {
        SerLink { start: s.range.start, end: s.range.end, url: text::copy(s.url.as_str()) }
    }

    /// The link that is stored.
    pub fn into_span(self) -> (s: LinkSpan)
        ensures
            s@ == self@,
    {
        LinkSpan { range: self.start..self.end, url: self.url }
    }

    /// The stored form of links.
    pub fn spans_to_ser(spans: &[LinkSpan]) -> (v: Vec<SerLink>)
        ensures
            views(v@) == views(spans@),
    {
        let mut out: Vec<SerLink> = Vec::new();
        let mut i: usize = 0;
        while i < spans.len()
            invariant
                i <= spans.len(),
                out@.len() == i,
                forall|k: int| 0 <= k < i ==> (#[trigger] out@[k])@ == spans@[k]@,
            decreases spans.len() - i,
        {
            out.push(SerLink::from_span(&spans[i]));
            i += 1;
        }
        assert(views(out@) =~= views(spans@));
        out
    }

    /// The links that are stored.
    pub fn ser_to_spans(spans: Vec<SerLink>) -> (v: Vec<LinkSpan>)
        ensures
            views(v@) == views(spans@),
    {
        let mut out: Vec<LinkSpan> = Vec::new();
        let mut i: usize = 0;
        while i < spans.len()
            invariant
                i <= spans.len(),
                out@.len() == i,
                forall|k: int| 0 <= k < i ==> (#[trigger] out@[k])@ == spans@[k]@,
            decreases spans.len() - i,
        {
            let l = &spans[i];
            out.push(LinkSpan { range: l.start..l.end, url: text::copy(l.url.as_str()) });
            i += 1;
        }
        assert(views(out@) =~= views(spans@));
        out
    }
}

/// What a reference points at, as it is stored.
pub open spec fn stored_target(t: ReferenceTarget) -> SerTarget {
    match t {
        ReferenceTarget::WholeCell(cell_id) => SerTarget::Cell { cell_id },
        ReferenceTarget::Subtree { cell_id, bullet_id } => SerTarget::Subtree {
            cell_id,
            bullet_id,
        },
    }
}

/// What a stored reference points at.
pub open spec fn live_target(t: SerTarget) -> ReferenceTarget {
    match t {
        SerTarget::Cell { cell_id } => ReferenceTarget::WholeCell(cell_id),
        SerTarget::Subtree { cell_id, bullet_id } => ReferenceTarget::Subtree {
            cell_id,
            bullet_id,
        },
    }
}

/// Storing what a reference points at, and reading it, changes nothing; nor the
/// other way round.
pub proof fn stored_targets_are_read_back(t: ReferenceTarget, s: SerTarget)
    ensures
        live_target(stored_target(t)) == t,
        stored_target(live_target(s)) == s,
{
}

/// The address of a cell, or of a bullet in it.
pub open spec fn target_address(t: SerTarget) -> Seq<u8> {
    match t {
        SerTarget::Cell { cell_id } => utf8("kept://"@) + utf8(spelling(cell_id)),
        SerTarget::Subtree { cell_id, bullet_id } => utf8("kept://"@) + utf8(spelling(cell_id))
            + utf8("#"@) + utf8(spelling(bullet_id)),
    }
}

impl SerTarget {
    /// The stored form of what a reference points at.
    pub fn from_target(t: ReferenceTarget) -> (s: SerTarget)
        ensures
            s == stored_target(t),
    {
        match t {
            ReferenceTarget::WholeCell(cell_id) => SerTarget::Cell { cell_id },
            ReferenceTarget::Subtree { cell_id, bullet_id } => SerTarget::Subtree {
                cell_id,
                bullet_id,
            },
        }
    }

    /// What the stored reference points at.
    pub fn into_target(self) -> (t: ReferenceTarget)
        ensures
            t == live_target(self),
    {
        match self {
            SerTarget::Cell { cell_id } => ReferenceTarget::WholeCell(cell_id),
            SerTarget::Subtree { cell_id, bullet_id } => ReferenceTarget::Subtree {
                cell_id,
                bullet_id,
            },
        }
    }

    /// Its address: `kept://` and the cell, then `#` and the bullet where there is
    /// one.
    pub fn to_url(&self) -> (url: String)
        ensures
            utf8(url@) == target_address(*self),
    {
        let mut url = text::copy("kept://");
        match self {
            SerTarget::Cell { cell_id } => {
                text::push_str(&mut url, id_text(*cell_id).as_str());
            },
            SerTarget::Subtree { cell_id, bullet_id } => {
                text::push_str(&mut url, id_text(*cell_id).as_str());
                text::push_str(&mut url, "#");
                text::push_str(&mut url, id_text(*bullet_id).as_str());
            },
        }
        url
    }
}

// ---------------------------------------------------------------------------
// The hidden payload
// ---------------------------------------------------------------------------

/// The text that `base64` writes for bytes, in its standard alphabet with padding.
pub uninterp spec fn base64_written(bytes: Seq<u8>) -> Seq<u8>;

/// The bytes that `base64` reads out of a text, if it can.
pub uninterp spec fn base64_read(text: Seq<u8>) -> Option<Seq<u8>>;

/// A letter of the standard alphabet, or the padding: `A` to `Z`, `a` to `z`, `0`
/// to `9`, `+`, `/`, `=`.
pub open spec fn base64_letter(x: u8) -> bool {
    65 <= x <= 90 || 97 <= x <= 122 || 48 <= x <= 57 || x == 43 || x == 47 || x == 61
}

/// `Engine::encode` of `base64`'s `STANDARD`: a text of letters of the standard
/// alphabet, out of which `Engine::decode` reads the bytes again.
#[verifier::external_body]
fn encode(bytes: &[u8]) -> (text: String)
    ensures
        utf8(text@) == base64_written(bytes@),
        base64_read(utf8(text@)) == Some(bytes@),
        forall|i: int| 0 <= i < utf8(text@).len() ==> base64_letter(#[trigger] utf8(text@)[i]),
{
    base64::engine::general_purpose::STANDARD.encode(bytes)
}

/// `Engine::decode` of `base64`'s `STANDARD`: the bytes that a text stands for, if
/// it stands for any.
#[verifier::external_body]
fn decode(text: &str) -> (bytes: Option<Vec<u8>>)
    ensures
        (match bytes {
            Some(v) => Some(v@),
            None => None,
        }) == base64_read(utf8(text@)),
{
    base64::engine::general_purpose::STANDARD.decode(text).ok()
}

/// What stands in front of a hidden payload.
pub open spec fn marker() -> Seq<u8> {
    utf8("data-kept-payload=\""@)
}

/// The payload that bytes say, read as JSON.
pub open spec fn payload_said(bytes: Seq<u8>) -> Option<PayloadModel> {
    if valid_utf8(bytes) {
        match json_parsed(bytes) {
            Some(t) => payload_of(t),
            None => None,
        }
    } else {
        None
    }
}

/// The payload that is hidden in HTML: behind the first marker, up to the next
/// quotation mark.
pub open spec fn hidden_payload(html: Seq<u8>) -> Option<PayloadModel> {
    match occurrence(html, marker(), 0) {
        Some(i) => {
            let start = i + marker().len();
            let end = first_byte(html, 34, start);
            if end >= html.len() {
                None
            } else {
                match base64_read(html.subrange(start, end)) {
                    Some(bytes) => payload_said(bytes),
                    None => None,
                }
            }
        },
        None => None,
    }
}

fn read_payload(bytes: Vec<u8>) -> (p: Option<KeptPayload>)
    ensures
        payload_view(p) == payload_said(bytes@),
{
    match text::string_of(bytes) {
        Some(s) => {
            proof {
                lemma_utf8_valid(s@);
            }
            match Json::parse(s.as_str()) {
                Some(j) => KeptPayload::from_json(&j),
                None => None,
            }
        },
        None => None,
    }
}

/// The payload that is hidden in HTML.
pub fn extract_payload_marker(html: &str) -> (p: Option<KeptPayload>)
    ensures
        payload_view(p) == hidden_payload(utf8(html@)),
{
    let ghost b = utf8(html@);
    let n: usize = text::len(html);
    proof {
        lemma_utf8_valid(html@);
        lemma_marker();
    }
    match first_occurrence(html, "data-kept-payload=\"") {
        Some(i) => {
            let start: usize = i + 19;
            let end: usize = text::find_byte(html, 34, start);
            if end >= n {
                return None;
            }
            proof {
                lemma_occurrence_is(b, marker(), 0);
                assert(b.subrange(i as int, start as int)[18] == b[start - 1]);
                lemma_after_ascii(b, start - 1);
                lemma_first_byte(b, 34, start as int);
                lemma_ascii_is_boundary(b, end as int);
            }
            match decode(text::slice(html, start, end)) {
                Some(bytes) => read_payload(bytes),
                None => None,
            }
        },
        None => None,
    }
}

proof fn lemma_marker()
    ensures
        marker() == seq![
            100u8,
            97,
            116,
            97,
            45,
            107,
            101,
            112,
            116,
            45,
            112,
            97,
            121,
            108,
            111,
            97,
            100,
            61,
            34,
        ],
{
    reveal_strlit("data-kept-payload=\"");
    is_ascii_chars_encode_utf8("data-kept-payload=\""@);
    assert(marker() =~= seq![
        100u8,
        97,
        116,
        97,
        45,
        107,
        101,
        112,
        116,
        45,
        112,
        97,
        121,
        108,
        111,
        97,
        100,
        61,
        34,
    ]);
}

/// What is found occurs there.
pub proof fn lemma_occurrence_is(b: Seq<u8>, p: Seq<u8>, k: int)
    ensures
        occurrence(b, p, k) matches Some(i) ==> occurs_at(b, p, i),
    decreases b.len() + 1 - k,
{
    if 0 <= k <= b.len() && !occurs_at(b, p, k) {
        lemma_occurrence_is(b, p, k + 1);
    }
}

// ---------------------------------------------------------------------------
// HTML
// ---------------------------------------------------------------------------

/// What is seen of a payload in HTML.
pub open spec fn visible_html(p: PayloadModel) -> Seq<u8> {
    match p {
        PayloadModel::Text(text, links) => utf8("<p>"@) + linked_html(text, links) + utf8("</p>"@),
        PayloadModel::Outline(bs) => markup_html(lists_of(bs)),
        PayloadModel::Reference(target, snippet) => utf8("<p><a href=\""@) + escaped(
            target_address(target),
            true,
        ) + utf8("\">↗ "@) + escaped(snippet, false) + utf8("</a></p>"@),
    }
}

/// What stands in front of the hidden payload.
pub open spec fn hidden_open() -> Seq<u8> {
    utf8("<span data-kept-payload=\""@)
}

/// What stands behind it.
pub open spec fn hidden_close() -> Seq<u8> {
    utf8("\" style=\"display:none\"></span>"@)
}

/// The span that hides a payload; it is not drawn.
pub open spec fn payload_span(p: PayloadModel) -> Seq<u8> {
    hidden_open() + base64_written(json_stored(payload_json(p))) + hidden_close()
}

/// A payload as HTML: hidden, then for others to see.
pub open spec fn payload_html(p: PayloadModel) -> Seq<u8> {
    payload_span(p) + visible_html(p)
}

/// The links of a payload stand between characters.
pub open spec fn payload_placed(p: PayloadModel) -> bool {
    match p {
        PayloadModel::Text(text, links) => links_placed(text, links),
        PayloadModel::Outline(bs) => bullets_placed(bs),
        PayloadModel::Reference(..) => true,
    }
}

fn push_visible(out: &mut String, p: &KeptPayload)
    requires
        payload_placed(p@),
    ensures
        utf8(final(out)@) == utf8(old(out)@) + visible_html(p@),
{
    let ghost led = utf8(out@);
    match p {
        KeptPayload::Text { text, links } => {
            let body = render_text_with_links(text.as_str(), links);
            text::push_str(out, "<p>");
            text::push_str(out, body.as_str());
            text::push_str(out, "</p>");
        },
        KeptPayload::Outline { bullets } => {
            let body = render_outline(bullets);
            text::push_str(out, body.as_str());
        },
        KeptPayload::Reference { target, snippet } => {
            let url = escape_attr(target.to_url().as_str());
            let body = escape_text(snippet.as_str());
            text::push_str(out, "<p><a href=\"");
            text::push_str(out, url.as_str());
            text::push_str(out, "\">↗ ");
            text::push_str(out, body.as_str());
            text::push_str(out, "</a></p>");
        },
    }
    assert(utf8(out@) =~= led + visible_html(p@));
}

proof fn lemma_exec_payload_fits(p: KeptPayload)
    ensures
        payload_fits(p@),
{
    match p {
        KeptPayload::Text { text, links } => {
            lemma_exec_links_fit(links@);
        },
        KeptPayload::Outline { bullets } => {
            let bs = views(bullets@);
            assert forall|i: int| 0 <= i < bs.len() implies links_fit((#[trigger] bs[i]).links) by {
                lemma_exec_links_fit(bullets@[i].links@);
            }
        },
        KeptPayload::Reference { target, snippet } => {},
    }
}

proof fn lemma_exec_links_fit(links: Seq<SerLink>)
    ensures
        links_fit(views(links)),
{
    let ls = views(links);
    assert forall|i: int| 0 <= i < ls.len() implies 0 <= (#[trigger] ls[i]).start <= usize::MAX
        && 0 <= ls[i].end <= usize::MAX by {
        assert(ls[i] == links[i]@);
    }
}

proof fn lemma_hidden_ends()
    ensures
        marker().len() == 19,
        marker()[0] == 100,
        hidden_open().len() == 25,
        hidden_open().subrange(6, 25) == marker(),
        forall|j: int| 0 <= j < 6 ==> #[trigger] hidden_open()[j] != 100,
        hidden_close().len() > 0,
        hidden_close()[0] == 34,
{
    lemma_marker();
    reveal_strlit("<span data-kept-payload=\"");
    is_ascii_chars_encode_utf8("<span data-kept-payload=\""@);
    reveal_strlit("\" style=\"display:none\"></span>");
    is_ascii_chars_encode_utf8("\" style=\"display:none\"></span>"@);
    assert(hidden_open().subrange(6, 25) =~= marker());
}

proof fn lemma_hidden_found(code: Seq<u8>, rest: Seq<u8>)
    requires
        forall|i: int| 0 <= i < code.len() ==> base64_letter(#[trigger] code[i]),
    ensures
        ({
            let html = hidden_open() + code + hidden_close() + rest;
            &&& occurrence(html, marker(), 0) == Some(6int)
            &&& first_byte(html, 34, 25) == (25 + code.len()) as int
            &&& html.subrange(25, (25 + code.len()) as int) == code
            &&& marker().len() == 19
            &&& 25 + code.len() < html.len()
        }),
{
    let html = hidden_open() + code + hidden_close() + rest;
    let open = hidden_open();
    lemma_hidden_ends();
    assert forall|i: int| 0 <= i < 25 implies html[i] == open[i] by {}
    assert(html.subrange(6, 25) =~= open.subrange(6, 25));
    assert(occurs_at(html, marker(), 6));
    assert forall|j: int| j < 6 implies !occurs_at(html, marker(), j) by {
        if 0 <= j < 6 && occurs_at(html, marker(), j) {
            assert(html.subrange(j, j + 19)[0] == html[j]);
            assert(html[j] == open[j]);
        }
    }
    lemma_occurrence(html, marker(), 0, 6);
    assert(html.subrange(25, (25 + code.len()) as int) =~= code);
    assert(html[(25 + code.len()) as int] == 34);
    assert forall|i: int| 25 <= i < 25 + code.len() implies html[i] != 34 by {
        assert(html[i] == code[i - 25]);
    }
    lemma_first_byte_is(html, 34, 25, (25 + code.len()) as int);
}

/// The span that hides a payload. Whatever HTML comes behind it and whatever the plain
/// text says, what is pasted is the payload, exactly.
pub fn payload_marker(p: &KeptPayload) -> (html: String)
    ensures
        utf8(html@) == payload_span(p@),
        hidden_payload(utf8(html@)) == Some(p@),
        forall|more: Seq<u8>| #[trigger] hidden_payload(utf8(html@) + more) == Some(p@),
        forall|more: Seq<u8>, text: Seq<u8>|
            #[trigger] clipped(Some(utf8(html@) + more), text) == p@,
{
    let j = p.to_json();
    proof {
        lemma_exec_payload_fits(*p);
        payloads_are_read_back(p@);
    }
    let json = j.to_text();
    let code = encode(json.as_str().as_bytes());
    let mut out = text::copy("<span data-kept-payload=\"");
    text::push_str(&mut out, code.as_str());
    text::push_str(&mut out, "\" style=\"display:none\"></span>");
    proof {
        lemma_hidden_found(utf8(code@), Seq::empty());
        lemma_utf8_valid(json@);
        assert(utf8(out@) =~= payload_span(p@));
        assert(utf8(out@) =~= hidden_open() + utf8(code@) + hidden_close() + Seq::<u8>::empty());
        assert forall|more: Seq<u8>| #[trigger] hidden_payload(utf8(out@) + more) == Some(p@) by {
            lemma_hidden_found(utf8(code@), more);
            assert(utf8(out@) + more =~= hidden_open() + utf8(code@) + hidden_close() + more);
        }
    }
    out
}

/// A payload as HTML. What is hidden in it is the payload, exactly; so what was
/// copied is what is pasted, whatever else comes behind it and whatever the plain
/// text says.
pub fn to_html(p: &KeptPayload) -> (html: String)
    requires
        payload_placed(p@),
    ensures
        utf8(html@) == payload_html(p@),
        hidden_payload(utf8(html@)) == Some(p@),
        forall|more: Seq<u8>, text: Seq<u8>|
            #[trigger] clipped(Some(utf8(html@) + more), text) == p@,
{
    let mut out = payload_marker(p);
    let ghost span = utf8(out@);
    push_visible(&mut out, p);
    proof {
        let shown = visible_html(p@);
        assert(hidden_payload(span + shown) == Some(p@));
        assert forall|more: Seq<u8>, text: Seq<u8>|
            #[trigger] clipped(Some(utf8(out@) + more), text) == p@ by {
            assert(span + shown + more =~= span + (shown + more));
            assert(clipped(Some(span + (shown + more)), text) == p@);
        }
    }
    out
}

// ---------------------------------------------------------------------------
// Pasting
// ---------------------------------------------------------------------------

/// What is on the clipboard: what is hidden in the HTML, else what the HTML says,
/// else what the text says.
pub open spec fn clipped(html: Option<Seq<u8>>, text: Seq<u8>) -> PayloadModel {
    let rich = match html {
        Some(h) => if hidden_payload(h) is Some {
            hidden_payload(h)
        } else {
            html_payload(h)
        },
        None => None,
    };
    match rich {
        Some(p) => p,
        None => plain_payload(text),
    }
}

/// The HTML on the clipboard decides what is taken, whatever the plain text is.
pub open spec fn html_decides(html: Option<&str>) -> bool {
    html matches Some(h) && (hidden_payload(utf8(h@)) is Some || html_payload(utf8(h@)) is Some)
}

/// What is on the clipboard.
pub fn from_clipboard(html: Option<&str>, s: &str) -> (p: KeptPayload)
    requires
        html_decides(html) || 4 * utf8(s@).len() <= u32::MAX,
    ensures
        p@ == clipped(
            match html {
                Some(h) => Some(utf8(h@)),
                None => None,
            },
            utf8(s@),
        ),
{
    if let Some(h) = html {
        if let Some(p) = extract_payload_marker(h) {
            return p;
        }
        if let Some(p) = parse_html(h) {
            return p;
        }
    }
    from_plain_text(s)
}

/// What is on the clipboard; nothing where only the plain text could tell and it is too
/// long for its indentation to be counted.
pub fn from_any_clipboard(html: Option<&str>, s: &str) -> (p: Option<KeptPayload>)
    ensures
        p is Some <==> html_decides(html) || 4 * utf8(s@).len() <= u32::MAX,
        p matches Some(q) ==> q@ == clipped(
            match html {
                Some(h) => Some(utf8(h@)),
                None => None,
            },
            utf8(s@),
        ),
{
    let fits: bool = text::len(s) <= (u32::MAX / 4) as usize;
    let decided: bool = match html {
        Some(h) => extract_payload_marker(h).is_some() || parse_html(h).is_some(),
        None => false,
    };
    if fits || decided {
        Some(from_clipboard(html, s))
    } else {
        None
    }
}

/// Where the HTML on the clipboard says something, the plain text makes no difference; where it says
/// nothing, or there is none, the HTML makes none.
pub proof fn plain_text_counts_only_where_html_says_nothing(
    html: Seq<u8>,
    one: Seq<u8>,
    other: Seq<u8>,
)
    ensures
        hidden_payload(html) is Some || html_payload(html) is Some ==> clipped(Some(html), one)
            == clipped(Some(html), other),
        hidden_payload(html) matches Some(p) ==> clipped(Some(html), one) == p,
        hidden_payload(html) is None && html_payload(html) is Some ==> clipped(Some(html), one)
            == html_payload(html)->0,
        hidden_payload(html) is None && html_payload(html) is None ==> clipped(Some(html), one)
            == clipped(None, one),
        clipped(None, one) == plain_payload(one),
{
}

} // verus!
