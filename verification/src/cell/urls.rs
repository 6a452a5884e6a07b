//! Web addresses in text.
use vstd::prelude::*;
use vstd::utf8::*;

use crate::text;
use crate::cell::common::{Link, LinkSpan};
use crate::cell::wrap::{
    lemma_next_boundary, lemma_no_boundary_between, next_boundary, next_char_boundary, Span,
};
use crate::text::{
    boundary, char_at, lemma_after_ascii, lemma_boundary_ends, lemma_utf8_valid, occurs_at, utf8,
    views, white,
};
use crate::words::lemma_ascii_char;

verus! {

/// `https://`
pub open spec fn https_scheme() -> Seq<u8> {
    seq![104u8, 116, 116, 112, 115, 58, 47, 47]
}

/// `http://`
pub open spec fn http_scheme() -> Seq<u8> {
    seq![104u8, 116, 116, 112, 58, 47, 47]
}

/// The length of the scheme at `i`; 0 where there is none.
pub open spec fn scheme_len(b: Seq<u8>, i: int) -> int {
    if occurs_at(b, https_scheme(), i) {
        8
    } else if occurs_at(b, http_scheme(), i) {
        7
    } else {
        0
    }
}

/// The first white space from `p` on; the end of the text where there is none.
pub open spec fn solid_end(b: Seq<u8>, p: int) -> int
    decreases b.len() - p,
{
    let n = next_boundary(b, p);
    if p >= b.len() || n <= p || n > b.len() || white(char_at(b, p)) {
        p
    } else {
        solid_end(b, n)
    }
}

/// Punctuation that closes a sentence rather than an address: `. , ; : ! ? ) ]
/// }`.
pub open spec fn closing(x: u8) -> bool {
    x == 46 || x == 44 || x == 59 || x == 58 || x == 33 || x == 63 || x == 41 || x == 93 || x
        == 125
}

/// `end` without the closing punctuation in front of it, back to `lo` at most.
pub open spec fn peeled(b: Seq<u8>, lo: int, end: int) -> int
    decreases end - lo,
{
    if end > lo && closing(b[end - 1]) {
        peeled(b, lo, end - 1)
    } else {
        end
    }
}

/// The addresses of the text from `i` on, in order.
pub open spec fn urls_from(b: Seq<u8>, i: int) -> Seq<Span>
    decreases b.len() - i,
{
    let n = next_boundary(b, i);
    let body = i + scheme_len(b, i);
    let end = peeled(b, body, solid_end(b, body));
    if i < 0 || i >= b.len() || n <= i || n > b.len() {
        Seq::empty()
    } else if body == i {
        urls_from(b, n)
    } else if body < end <= b.len() {
        seq![Span { start: i, end }] + urls_from(b, end)
    } else if body <= b.len() {
        urls_from(b, body)
    } else {
        Seq::empty()
    }
}

/// A part of a text as a link onto what it spells.
pub open spec fn self_link(b: Seq<u8>) -> spec_fn(Span) -> Link {
    |s: Span| Link { start: s.start, end: s.end, url: b.subrange(s.start, s.end) }
}

/// The addresses of a text as links onto themselves.
pub open spec fn url_links(b: Seq<u8>) -> Seq<Link> {
    urls_from(b, 0).map_values(self_link(b))
}

/// `solid_end` finds a place between characters.
pub proof fn lemma_solid_end(b: Seq<u8>, p: int)
    requires
        boundary(b, p),
    ensures
        p <= solid_end(b, p) <= b.len(),
        boundary(b, solid_end(b, p)),
    decreases b.len() - p,
{
    lemma_next_boundary(b, p);
    if p < b.len() && !white(char_at(b, p)) {
        lemma_solid_end(b, next_boundary(b, p));
    }
}

proof fn lemma_peeled(b: Seq<u8>, lo: int, end: int)
    requires
        0 <= lo <= end <= b.len(),
        boundary(b, end),
    ensures
        lo <= peeled(b, lo, end) <= end,
        boundary(b, peeled(b, lo, end)),
    decreases end - lo,
{
    if end > lo && closing(b[end - 1]) {
        lemma_peeled(b, lo, end - 1);
    }
}

proof fn lemma_scheme_boundary(b: Seq<u8>, i: int)
    requires
        valid_utf8(b),
        boundary(b, i),
    ensures
        boundary(b, i + scheme_len(b, i)),
{
    if occurs_at(b, https_scheme(), i) {
        assert(b[i + 7] == b.subrange(i, i + 8)[7]);
        lemma_after_ascii(b, i + 7);
    } else if occurs_at(b, http_scheme(), i) {
        assert(b[i + 6] == b.subrange(i, i + 7)[6]);
        lemma_after_ascii(b, i + 6);
    }
}

/// There is no white space between `p` and `e`.
pub open spec fn unbroken(b: Seq<u8>, p: int, e: int) -> bool {
    forall|q: int| p <= q < e && #[trigger] boundary(b, q) ==> !white(char_at(b, q))
}

proof fn lemma_solid_run(b: Seq<u8>, p: int)
    requires
        boundary(b, p),
    ensures
        unbroken(b, p, solid_end(b, p)),
        solid_end(b, p) < b.len() ==> white(char_at(b, solid_end(b, p))),
    decreases b.len() - p,
{
    lemma_next_boundary(b, p);
    lemma_no_boundary_between(b, p);
    if p < b.len() && !white(char_at(b, p)) {
        lemma_solid_run(b, next_boundary(b, p));
    }
}

proof fn lemma_peeled_end(b: Seq<u8>, lo: int, end: int)
    requires
        0 <= lo <= end <= b.len(),
    ensures
        lo <= peeled(b, lo, end) <= end,
        peeled(b, lo, end) > lo ==> !closing(b[peeled(b, lo, end) - 1]),
        forall|j: int| peeled(b, lo, end) <= j < end ==> closing(#[trigger] b[j]),
    decreases end - lo,
{
    if end > lo && closing(b[end - 1]) {
        lemma_peeled_end(b, lo, end - 1);
    }
}

/// What is found as an address: it starts with `http://` or `https://` and goes on behind that
/// without white space; it does not end with punctuation that closes a sentence; and what
/// follows, up to white space or the end of the text, is only such punctuation.
pub open spec fn is_address(b: Seq<u8>, s: Span) -> bool {
    &&& 0 <= s.start < s.end <= b.len()
    &&& occurs_at(b, seq![104u8, 116, 116, 112, 58, 47, 47], s.start) && s.start + 7 < s.end
        || occurs_at(b, seq![104u8, 116, 116, 112, 115, 58, 47, 47], s.start) && s.start + 8 < s.end
    &&& unbroken(b, s.start, s.end)
    &&& !closing(b[s.end - 1])
    &&& exists|e: int|
        {
            &&& s.end <= e <= b.len()
            &&& #[trigger] boundary(b, e)
            &&& forall|j: int| s.end <= j < e ==> closing(#[trigger] b[j])
            &&& e < b.len() ==> white(char_at(b, e))
        }
}

proof fn lemma_scheme_unbroken(b: Seq<u8>, i: int)
    requires
        valid_utf8(b),
        boundary(b, i),
    ensures
        unbroken(b, i, i + scheme_len(b, i)),
{
    assert forall|q: int| i <= q < i + scheme_len(b, i) && #[trigger] boundary(b, q) implies !white(
        char_at(b, q),
    ) by {
        if occurs_at(b, https_scheme(), i) {
            assert(b[q] == b.subrange(i, i + 8)[q - i]);
        } else {
            assert(b[q] == b.subrange(i, i + 7)[q - i]);
        }
        lemma_ascii_scalar(b, q);
    }
}

proof fn lemma_ascii_scalar(b: Seq<u8>, q: int)
    requires
        valid_utf8(b),
        0 <= q < b.len(),
        b[q] < 128,
    ensures
        char_at(b, q) == b[q] as char,
{
    lemma_ascii_char(b, q);
}

/// Addresses look like addresses, and none is passed over: wherever in the text, from `i` on,
/// there is an address, it or one that runs over its start is found. They are found in order,
/// and do not overlap.
pub proof fn addresses_are_found(b: Seq<u8>, i: int)
    requires
        valid_utf8(b),
        boundary(b, i),
    ensures
        forall|k: int|
            0 <= k < urls_from(b, i).len() ==> is_address(b, #[trigger] urls_from(b, i)[k])
                && i <= urls_from(b, i)[k].start,
        forall|k: int, j: int|
            0 <= k < j < urls_from(b, i).len() ==> (#[trigger] urls_from(b, i)[k]).end <= (
            #[trigger] urls_from(b, i)[j]).start,
        forall|s: Span|
            i <= s.start && #[trigger] is_address(b, s) && boundary(b, s.start) ==> exists|k: int|
                0 <= k < urls_from(b, i).len() && (#[trigger] urls_from(b, i)[k]).start <= s.start
                    < urls_from(b, i)[k].end,
    decreases b.len() - i,
{
    let all = urls_from(b, i);
    let n = next_boundary(b, i);
    let body = i + scheme_len(b, i);
    lemma_next_boundary(b, i);
    lemma_no_boundary_between(b, i);
    if i < b.len() {
        if body == i {
            addresses_are_found(b, n);
            assert(all == urls_from(b, n));
            assert forall|s: Span|
                i <= s.start && #[trigger] is_address(b, s) && boundary(b, s.start) implies exists|
                k: int,
            |
                0 <= k < all.len() && (#[trigger] all[k]).start <= s.start < all[k].end by {
                if s.start == i {
                    assert(scheme_len(b, i) > 0);
                }
                if s.start < n {
                    assert(!boundary(b, s.start));
                }
            }
        } else {
            lemma_scheme_boundary(b, i);
            lemma_scheme_unbroken(b, i);
            lemma_solid_end(b, body);
            lemma_solid_run(b, body);
            let stop = solid_end(b, body);
            let end = peeled(b, body, stop);
            lemma_peeled(b, body, stop);
            lemma_peeled_end(b, body, stop);
            if body < end {
                let one = Span { start: i, end };
                let rest = urls_from(b, end);
                addresses_are_found(b, end);
                assert(boundary(b, stop));
                assert(is_address(b, one));
                assert(all == seq![one] + rest);
                assert forall|k: int| 0 <= k < all.len() implies is_address(b, #[trigger] all[k])
                    && i <= all[k].start by {
                    if k > 0 {
                        assert(all[k] == rest[k - 1]);
                    }
                }
                assert forall|k: int, j: int| 0 <= k < j < all.len() implies (
                #[trigger] all[k]).end <= (#[trigger] all[j]).start by {
                    assert(all[j] == rest[j - 1]);
                    if k > 0 {
                        assert(all[k] == rest[k - 1]);
                    }
                }
                assert forall|s: Span|
                    i <= s.start && #[trigger] is_address(b, s) && boundary(
                        b,
                        s.start,
                    ) implies exists|k: int|
                    0 <= k < all.len() && (#[trigger] all[k]).start <= s.start < all[k].end by {
                    if s.start < end {
                        assert(all[0] == one);
                    } else {
                        let k = choose|k: int|
                            0 <= k < rest.len() && (#[trigger] rest[k]).start <= s.start
                                < rest[k].end;
                        assert(all[k + 1] == rest[k]);
                    }
                }
                assert(urls_from(b, i) == all);
            } else {
                addresses_are_found(b, body);
                assert(all == urls_from(b, body));
                assert forall|s: Span|
                    i <= s.start && #[trigger] is_address(b, s) && boundary(
                        b,
                        s.start,
                    ) implies exists|k: int|
                    0 <= k < all.len() && (#[trigger] all[k]).start <= s.start < all[k].end by {
                    if s.start < body {
                        lemma_no_address_in_scheme(b, i, s, body, stop);
                    }
                }
            }
        }
    }
}

/// In front of nothing but closing punctuation there is no address.
proof fn lemma_no_address_in_scheme(b: Seq<u8>, i: int, s: Span, body: int, stop: int)
    requires
        body == i + scheme_len(b, i),
        0 <= i,
        i <= s.start < body <= stop <= b.len(),
        boundary(b, stop),
        stop < b.len() ==> white(char_at(b, stop)),
        forall|j: int| body <= j < stop ==> closing(#[trigger] b[j]),
    ensures
        !is_address(b, s),
{
    if is_address(b, s) {
        let n = scheme_len(b, i);
        let here = s.start;
        assert(s.end <= stop) by {
            if s.end > stop {
                assert(unbroken(b, s.start, s.end));
                assert(boundary(b, stop));
            }
        }
        let http = seq![104u8, 116, 116, 112, 58, 47, 47];
        assert(http =~= http_scheme());
        assert(seq![104u8, 116, 116, 112, 115, 58, 47, 47] =~= https_scheme());
        let long = occurs_at(b, https_scheme(), here);
        if long {
            assert(b.subrange(here, here + 8)[0] == b[here]);
            assert(b.subrange(here, here + 8)[4] == b[here + 4]);
        } else {
            assert(b.subrange(here, here + 7)[0] == b[here]);
            assert(b.subrange(here, here + 7)[4] == b[here + 4]);
        }
        assert(b[here] == 104);
        assert(b[here] == b.subrange(i, i + n)[here - i]);
        assert(here == i);
        if !long && occurs_at(b, https_scheme(), i) {
            assert(b.subrange(i, i + 8)[4] == b[i + 4]);
        }
        assert(s.end > body);
        assert(closing(b[s.end - 1]));
    }
}

/// The addresses found in a text from `i` on lie in it, behind `i`; none is empty, and
/// none cuts a character.
pub proof fn addresses_lie_in_their_text(b: Seq<u8>, i: int)
    requires
        valid_utf8(b),
        boundary(b, i),
    ensures
        forall|k: int|
            #![trigger urls_from(b, i)[k]]
            0 <= k < urls_from(b, i).len() ==> i <= urls_from(b, i)[k].start < urls_from(
                b,
                i,
            )[k].end <= b.len() && boundary(b, urls_from(b, i)[k].start) && boundary(
                b,
                urls_from(b, i)[k].end,
            ),
    decreases b.len() - i,
{
    let all = urls_from(b, i);
    lemma_next_boundary(b, i);
    lemma_scheme_boundary(b, i);
    if i < b.len() {
        let body = i + scheme_len(b, i);
        if body == i {
            addresses_lie_in_their_text(b, next_boundary(b, i));
            assert(all == urls_from(b, next_boundary(b, i)));
        } else {
            lemma_solid_end(b, body);
            lemma_peeled(b, body, solid_end(b, body));
            let end = peeled(b, body, solid_end(b, body));
            if body < end {
                addresses_lie_in_their_text(b, end);
                let rest = urls_from(b, end);
                assert(all == seq![Span { start: i, end }] + rest);
                assert forall|k: int| #![trigger all[k]] 0 <= k < all.len() implies i
                    <= all[k].start < all[k].end <= b.len() && boundary(b, all[k].start)
                    && boundary(b, all[k].end) by {
                    if k > 0 {
                        assert(all[k] == rest[k - 1]);
                    }
                }
            } else {
                addresses_lie_in_their_text(b, body);
                assert(all == urls_from(b, body));
            }
        }
    }
}

fn is_closing(x: u8) -> (r: bool)
    ensures
        r == closing(x),
{
    x == 46 || x == 44 || x == 59 || x == 58 || x == 33 || x == 63 || x == 41 || x == 93 || x
        == 125
}

fn scheme_at(s: &str, i: usize) -> (r: usize)
    ensures
        r == scheme_len(utf8(s@), i as int),
{
    proof {
        reveal_strlit("https://");
        reveal_strlit("http://");
        is_ascii_chars_encode_utf8("https://"@);
        is_ascii_chars_encode_utf8("http://"@);
        assert(utf8("https://"@) =~= https_scheme());
        assert(utf8("http://"@) =~= http_scheme());
    }
    if text::matches_at(s, "https://", i) {
        8
    } else if text::matches_at(s, "http://", i) {
        7
    } else {
        0
    }
}

/// Finds every `http://` and `https://` address in `s`. An address runs up to
/// white space; closing punctuation at its end is not part of it. A bare scheme
/// is no address.
pub fn detect_urls(s: &str) -> (urls: Vec<LinkSpan>)
    ensures
        views(urls@) == url_links(utf8(s@)),
{
    let ghost b = utf8(s@);
    let ghost f = self_link(b);
    let n: usize = text::len(s);
    let mut urls: Vec<LinkSpan> = Vec::new();
    let mut i: usize = 0;
    proof {
        lemma_utf8_valid(s@);
        lemma_boundary_ends(b);
        assert(views(urls@) + urls_from(b, 0).map_values(f) =~= url_links(b));
    }
    while i < n
        invariant
            b == utf8(s@),
            valid_utf8(b),
            n == b.len(),
            i <= n,
            boundary(b, i as int),
            f == self_link(b),
            url_links(b) == views(urls@) + urls_from(b, i as int).map_values(f),
        decreases n - i,
    {
        proof {
            lemma_next_boundary(b, i as int);
            lemma_scheme_boundary(b, i as int);
        }
        let prefix: usize = scheme_at(s, i);
        if prefix == 0 {
            i = next_char_boundary(s, i);
        } else {
            let body: usize = i + prefix;
            proof {
                lemma_solid_end(b, body as int);
                lemma_peeled(b, body as int, solid_end(b, body as int));
            }
            let mut end: usize = body;
            while end < n && !text::is_white(text::get_char(s, end))
                invariant
                    b == utf8(s@),
                    n == b.len(),
                    body <= end <= n,
                    boundary(b, end as int),
                    solid_end(b, end as int) == solid_end(b, body as int),
                decreases n - end,
            {
                proof {
                    lemma_next_boundary(b, end as int);
                }
                end = next_char_boundary(s, end);
            }
            while end > body && is_closing(text::byte_at(s, end - 1))
                invariant
                    b == utf8(s@),
                    n == b.len(),
                    body <= end <= n,
                    boundary(b, end as int),
                    peeled(b, body as int, end as int) == peeled(
                        b,
                        body as int,
                        solid_end(b, body as int),
                    ),
                decreases end,
            {
                end -= 1;
            }
            if end > body {
                let ghost prev = urls@;
                urls.push(LinkSpan { range: i..end, url: text::copy(text::slice(s, i, end)) });
                proof {
                    let one = Span { start: i as int, end: end as int };
                    let rest = urls_from(b, end as int);
                    assert(views(urls@) =~= views(prev).push(f(one)));
                    assert(urls_from(b, i as int) == seq![one] + rest);
                    assert(views(prev) + (seq![one] + rest).map_values(f) =~= views(urls@)
                        + rest.map_values(f));
                }
                i = end;
            } else {
                i = body;
            }
        }
    }
    proof {
        assert(urls_from(b, i as int).map_values(f) =~= Seq::<Link>::empty());
        assert(views(urls@) =~= url_links(b));
    }
    urls
}

} // verus!
