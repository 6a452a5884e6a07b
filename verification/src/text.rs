//! Strings seen as their UTF-8 bytes.
//!
//! Every offset the library stores (carets, link spans, visual lines) is a
//! byte offset, so texts are modelled by the sequence of their bytes.
use vstd::prelude::*;
use vstd::string::*;
use vstd::utf8::*;

verus! {

/// The UTF-8 bytes of a character sequence: the model of a text.
pub open spec fn utf8(s: Seq<char>) -> Seq<u8> {
    encode_utf8(s)
}

/// `i` is an offset at which `b` may be cut: its end, or the first byte of a
/// character.
pub open spec fn boundary(b: Seq<u8>, i: int) -> bool {
    0 <= i <= b.len() && (i < b.len() ==> !is_continuation_byte(b[i]))
}

/// `p` is what `b` starts with.
pub open spec fn starts_with_bytes(b: Seq<u8>, p: Seq<u8>) -> bool {
    p.len() <= b.len() && b.subrange(0, p.len() as int) == p
}

/// `p` occurs in `b` at offset `i`.
pub open spec fn occurs_at(b: Seq<u8>, p: Seq<u8>, i: int) -> bool {
    0 <= i && i + p.len() <= b.len() && b.subrange(i, i + p.len()) == p
}

/// The offset of the first `x` in `b` at or after `from`; the end of `b` where
/// there is none.
pub open spec fn first_byte(b: Seq<u8>, x: u8, from: int) -> int
    decreases b.len() - from,
{
    if from < 0 || from >= b.len() {
        b.len() as int
    } else if b[from] == x {
        from
    } else {
        first_byte(b, x, from + 1)
    }
}

/// `t` with the bytes from `lo` to `hi` replaced by `with`.
pub open spec fn spliced(t: Seq<u8>, lo: int, hi: int, with: Seq<u8>) -> Seq<u8> {
    t.subrange(0, lo) + with + t.subrange(hi, t.len() as int)
}

/// The views of the items of a sequence.
pub open spec fn views<T: View>(s: Seq<T>) -> Seq<T::V> {
    Seq::new(s.len(), |i: int| s[i]@)
}

// ---------------------------------------------------------------------------
// Facts about UTF-8
// ---------------------------------------------------------------------------

pub proof fn lemma_utf8_concat(a: Seq<char>, b: Seq<char>)
    ensures
        utf8(a + b) == utf8(a) + utf8(b),
    decreases a.len(),
{
    if a.len() == 0 {
        assert(a + b =~= b);
        assert(utf8(a) + utf8(b) =~= utf8(b));
    } else {
        assert((a + b).drop_first() =~= a.drop_first() + b);
        lemma_utf8_concat(a.drop_first(), b);
        assert(utf8(a + b) =~= utf8(a) + utf8(b));
    }
}

pub proof fn lemma_utf8_injective(a: Seq<char>, b: Seq<char>)
    requires
        utf8(a) == utf8(b),
    ensures
        a == b,
{
    encode_utf8_decode_utf8(a);
    encode_utf8_decode_utf8(b);
}

pub proof fn lemma_utf8_valid(a: Seq<char>)
    ensures
        valid_utf8(utf8(a)),
{
    encode_utf8_valid_utf8(a);
}

/// On valid UTF-8 the offsets at which std cuts strings are those of
/// `boundary`.
pub proof fn lemma_boundary(b: Seq<u8>, i: int)
    requires
        valid_utf8(b),
    ensures
        is_char_boundary(b, i) <==> boundary(b, i),
{
    is_char_boundary_start_end_of_seq(b);
    if 0 <= i < b.len() {
        is_char_boundary_iff_not_is_continuation_byte(b, i);
    } else if i > b.len() || i < 0 {
        lemma_boundary_outside(b, i);
    }
}

proof fn lemma_boundary_outside(b: Seq<u8>, i: int)
    requires
        valid_utf8(b),
        i < 0 || i > b.len(),
    ensures
        !is_char_boundary(b, i),
{
}

/// The two ends of a valid text are boundaries.
pub proof fn lemma_boundary_ends(b: Seq<u8>)
    requires
        valid_utf8(b),
    ensures
        boundary(b, 0),
        boundary(b, b.len() as int),
{
    is_char_boundary_start_end_of_seq(b);
    lemma_boundary(b, 0);
}

/// What lies between two boundaries of a valid text is a valid text.
pub proof fn lemma_slice_valid(b: Seq<u8>, lo: int, hi: int)
    requires
        valid_utf8(b),
        boundary(b, lo),
        boundary(b, hi),
        lo <= hi,
    ensures
        valid_utf8(b.subrange(lo, hi)),
{
    lemma_boundary(b, hi);
    valid_utf8_split(b, hi);
    let p = b.subrange(0, hi);
    assert(boundary(p, lo));
    lemma_boundary(p, lo);
    valid_utf8_split(p, lo);
    assert(p.subrange(lo, p.len() as int) =~= b.subrange(lo, hi));
}

/// Splicing a valid text into another at boundaries gives a valid text.
pub proof fn lemma_splice_valid(t: Seq<u8>, lo: int, hi: int, with: Seq<u8>)
    requires
        valid_utf8(t),
        valid_utf8(with),
        boundary(t, lo),
        boundary(t, hi),
        lo <= hi,
    ensures
        valid_utf8(spliced(t, lo, hi, with)),
        spliced(t, lo, hi, with).len() == t.len() - (hi - lo) + with.len(),
{
    lemma_boundary_ends(t);
    lemma_slice_valid(t, 0, lo);
    lemma_slice_valid(t, hi, t.len() as int);
    valid_utf8_concat(t.subrange(0, lo), with);
    valid_utf8_concat(t.subrange(0, lo) + with, t.subrange(hi, t.len() as int));
}

/// Where the boundaries of a spliced text lie: those before the cut stay, those
/// behind it move along, and both ends of the inserted text are boundaries.
pub proof fn lemma_splice_boundaries(t: Seq<u8>, lo: int, hi: int, with: Seq<u8>)
    requires
        valid_utf8(t),
        valid_utf8(with),
        boundary(t, lo),
        boundary(t, hi),
        lo <= hi,
    ensures
        forall|i: int| i <= lo && boundary(t, i) ==> boundary(spliced(t, lo, hi, with), i),
        forall|i: int|
            hi <= i && boundary(t, i) ==> boundary(
                spliced(t, lo, hi, with),
                #[trigger] (i - (hi - lo) + with.len()),
            ),
        boundary(spliced(t, lo, hi, with), lo),
        boundary(spliced(t, lo, hi, with), lo + with.len()),
{
    let r = spliced(t, lo, hi, with);
    lemma_boundary_ends(with);
    lemma_boundary_ends(t);
    assert forall|i: int| i <= lo && boundary(t, i) implies boundary(r, i) by {
        if i < lo {
            assert(r[i] == t[i]);
        } else if with.len() > 0 {
            assert(r[lo] == with[0]);
        } else if hi < t.len() {
            assert(r[lo] == t[hi]);
        }
    }
    assert forall|i: int| hi <= i && boundary(t, i) implies boundary(
        r,
        #[trigger] (i - (hi - lo) + with.len()),
    ) by {
        if i < t.len() {
            assert(r[i - (hi - lo) + with.len()] == t[i]);
        }
    }
    assert(boundary(r, hi - (hi - lo) + with.len()));
}

/// ASCII bytes are characters of their own.
pub proof fn lemma_ascii_is_boundary(b: Seq<u8>, i: int)
    requires
        0 <= i < b.len(),
        b[i] < 0x80,
    ensures
        boundary(b, i),
{
}

/// After an ASCII byte a character ends.
pub proof fn lemma_after_ascii(b: Seq<u8>, i: int)
    requires
        valid_utf8(b),
        0 <= i < b.len(),
        b[i] < 0x80,
    ensures
        boundary(b, i + 1),
{
    lemma_boundary(b, i);
    lemma_boundary_ends(b);
    valid_utf8_split(b, i);
    let rest = b.subrange(i, b.len() as int);
    assert(rest[0] == b[i]);
    assert(valid_first_scalar(rest));
    assert(length_of_first_scalar(rest) == 1);
    let tail = pop_first_scalar(rest);
    lemma_boundary_ends(tail);
    if i + 1 < b.len() {
        assert(tail[0] == b[i + 1]);
    }
}

pub proof fn lemma_first_byte(b: Seq<u8>, x: u8, from: int)
    requires
        0 <= from <= b.len(),
    ensures
        from <= first_byte(b, x, from) <= b.len(),
        first_byte(b, x, from) < b.len() ==> b[first_byte(b, x, from)] == x,
        forall|j: int| from <= j < first_byte(b, x, from) ==> b[j] != x,
    decreases b.len() - from,
{
    if from < b.len() && b[from] != x {
        lemma_first_byte(b, x, from + 1);
    }
}

/// `first_byte` is the one offset with its property.
pub proof fn lemma_first_byte_is(b: Seq<u8>, x: u8, from: int, k: int)
    requires
        0 <= from <= k <= b.len(),
        k < b.len() ==> b[k] == x,
        forall|j: int| from <= j < k ==> b[j] != x,
    ensures
        first_byte(b, x, from) == k,
    decreases k - from,
{
    if from < k {
        lemma_first_byte_is(b, x, from + 1, k);
    }
}

// ---------------------------------------------------------------------------
// Operations on strings
// ---------------------------------------------------------------------------

/// The number of bytes of `s`.
pub fn len(s: &str) -> (n: usize)
    ensures
        n == utf8(s@).len(),
{
    s.as_bytes().len()
}

/// The byte of `s` at `i`.
pub fn byte_at(s: &str, i: usize) -> (b: u8)
    requires
        i < utf8(s@).len(),
    ensures
        b == utf8(s@)[i as int],
{
    s.as_bytes()[i]
}

/// Whether `s` can be cut at `i`.
pub fn is_boundary(s: &str, i: usize) -> (r: bool)
    ensures
        r == boundary(utf8(s@), i as int),
{
    proof {
        lemma_utf8_valid(s@);
        lemma_boundary(utf8(s@), i as int);
    }
    s.is_char_boundary(i)
}

/// The part of `s` from `lo` to `hi`.
pub fn slice<'a>(s: &'a str, lo: usize, hi: usize) -> (r: &'a str)
    requires
        lo <= hi,
        boundary(utf8(s@), lo as int),
        boundary(utf8(s@), hi as int),
    ensures
        utf8(r@) == utf8(s@).subrange(lo as int, hi as int),
{
    proof {
        lemma_utf8_valid(s@);
        lemma_boundary(utf8(s@), hi as int);
    }
    let (p, _) = s.split_at(hi);
    proof {
        lemma_utf8_valid(p@);
        assert(boundary(utf8(p@), lo as int));
        lemma_boundary(utf8(p@), lo as int);
    }
    let (_, r) = p.split_at(lo);
    assert(utf8(r@) =~= utf8(s@).subrange(lo as int, hi as int));
    r
}

/// The part of `s` from `lo` on.
pub fn suffix<'a>(s: &'a str, lo: usize) -> (r: &'a str)
    requires
        boundary(utf8(s@), lo as int),
    ensures
        utf8(r@) == utf8(s@).subrange(lo as int, utf8(s@).len() as int),
{
    proof {
        lemma_utf8_valid(s@);
        lemma_boundary(utf8(s@), lo as int);
    }
    let (_, r) = s.split_at(lo);
    r
}

/// A copy of `s`.
pub fn copy(s: &str) -> (r: String)
    ensures
        r@ == s@,
{
    s.to_owned()
}

/// Appends `with` to `s`.
pub fn push_str(s: &mut String, with: &str)
    ensures
        final(s)@ == old(s)@ + with@,
        utf8(final(s)@) == utf8(old(s)@) + utf8(with@),
{
    proof {
        lemma_utf8_concat(s@, with@);
    }
    s.append(with);
}

/// `s` with the bytes from `lo` to `hi` replaced by `with`.
pub fn splice(s: &str, lo: usize, hi: usize, with: &str) -> (r: String)
    requires
        lo <= hi,
        boundary(utf8(s@), lo as int),
        boundary(utf8(s@), hi as int),
    ensures
        utf8(r@) == spliced(utf8(s@), lo as int, hi as int, utf8(with@)),
{
    proof {
        lemma_utf8_valid(s@);
        lemma_boundary_ends(utf8(s@));
    }
    let mut r = copy(slice(s, 0, lo));
    push_str(&mut r, with);
    push_str(&mut r, suffix(s, hi));
    r
}

/// Whether two strings hold the same text.
pub fn same(a: &str, b: &str) -> (r: bool)
    ensures
        r == (a@ == b@),
        r == (utf8(a@) == utf8(b@)),
{
    let x = a.as_bytes();
    let y = b.as_bytes();
    if x.len() != y.len() {
        return false;
    }
    let mut i: usize = 0;
    while i < x.len()
        invariant
            x@ == utf8(a@),
            y@ == utf8(b@),
            x.len() == y.len(),
            i <= x.len(),
            forall|j: int| 0 <= j < i ==> x@[j] == y@[j],
        decreases x.len() - i,
    {
        if x[i] != y[i] {
            return false;
        }
        i += 1;
    }
    proof {
        assert(x@ =~= y@);
        lemma_utf8_injective(a@, b@);
    }
    true
}

/// Whether the bytes of `s` at `i` are those of `p`.
pub fn matches_at(s: &str, p: &str, i: usize) -> (r: bool)
    ensures
        r == occurs_at(utf8(s@), utf8(p@), i as int),
{
    let x = s.as_bytes();
    let y = p.as_bytes();
    if i > x.len() || x.len() - i < y.len() {
        return false;
    }
    let mut j: usize = 0;
    while j < y.len()
        invariant
            x@ == utf8(s@),
            y@ == utf8(p@),
            i + y.len() <= x.len(),
            j <= y.len(),
            forall|k: int| 0 <= k < j ==> x@[i + k] == y@[k],
        decreases y.len() - j,
    {
        if x[i + j] != y[j] {
            assert(x@.subrange(i as int, i + y.len())[j as int] == x@[i + j]);
            return false;
        }
        j += 1;
    }
    assert(x@.subrange(i as int, i + y.len()) =~= y@);
    true
}

/// Whether `s` starts with `p`.
pub fn starts_with(s: &str, p: &str) -> (r: bool)
    ensures
        r == starts_with_bytes(utf8(s@), utf8(p@)),
{
    matches_at(s, p, 0)
}

/// The offset of the first `x` in `s` at or after `from`; the end of `s` where
/// there is none.
pub fn find_byte(s: &str, x: u8, from: usize) -> (r: usize)
    requires
        from <= utf8(s@).len(),
    ensures
        r == first_byte(utf8(s@), x, from as int),
{
    let b = s.as_bytes();
    let mut i: usize = from;
    while i < b.len()
        invariant
            b@ == utf8(s@),
            from <= i <= b.len(),
            forall|j: int| from <= j < i ==> b@[j] != x,
        decreases b.len() - i,
    {
        if b[i] == x {
            proof {
                lemma_first_byte_is(b@, x, from as int, i as int);
            }
            return i;
        }
        i += 1;
    }
    proof {
        lemma_first_byte_is(b@, x, from as int, i as int);
    }
    i
}

/// The offset at which `p` first occurs in `s`.
pub fn find(s: &str, p: &str) -> (r: Option<usize>)
    ensures
        match r {
            Some(i) => occurs_at(utf8(s@), utf8(p@), i as int) && forall|j: int|
                j < i ==> !occurs_at(utf8(s@), utf8(p@), j),
            None => forall|j: int| !occurs_at(utf8(s@), utf8(p@), j),
        },
{
    let n: usize = len(s);
    let m: usize = len(p);
    if n < m {
        return None;
    }
    let mut i: usize = 0;
    while i < n - m
        invariant
            n == utf8(s@).len(),
            m == utf8(p@).len(),
            m <= n,
            i <= n - m,
            forall|j: int| j < i ==> !occurs_at(utf8(s@), utf8(p@), j),
        decreases n - m - i,
    {
        if matches_at(s, p, i) {
            return Some(i);
        }
        i += 1;
    }
    if matches_at(s, p, i) {
        Some(i)
    } else {
        None
    }
}

/// The character of `b` at `i`.
pub open spec fn char_at(b: Seq<u8>, i: int) -> char {
    decode_utf8(b.subrange(i, b.len() as int))[0]
}

/// The character of `s` at byte `i`.
pub fn get_char(s: &str, i: usize) -> (c: char)
    requires
        i < utf8(s@).len(),
        boundary(utf8(s@), i as int),
    ensures
        c == char_at(utf8(s@), i as int),
{
    let r = suffix(s, i);
    proof {
        encode_utf8_decode_utf8(r@);
        if r@.len() == 0 {
            assert(utf8(r@).len() == 0);
        }
    }
    r.get_char(0)
}

// ---------------------------------------------------------------------------
// White space
// ---------------------------------------------------------------------------

/// The characters with Unicode's `White_Space` property.
pub open spec fn white(c: char) -> bool {
    ||| '\u{9}' <= c <= '\u{d}'
    ||| c == ' '
    ||| c == '\u{85}'
    ||| c == '\u{a0}'
    ||| c == '\u{1680}'
    ||| '\u{2000}' <= c <= '\u{200a}'
    ||| c == '\u{2028}'
    ||| c == '\u{2029}'
    ||| c == '\u{202f}'
    ||| c == '\u{205f}'
    ||| c == '\u{3000}'
}

/// Whether `c` is white space.
pub fn is_white(c: char) -> (r: bool)
    ensures
        r == white(c),
{
    ('\u{9}' <= c && c <= '\u{d}') || c == ' ' || c == '\u{85}' || c == '\u{a0}' || c
        == '\u{1680}' || ('\u{2000}' <= c && c <= '\u{200a}') || c == '\u{2028}' || c
        == '\u{2029}' || c == '\u{202f}' || c == '\u{205f}' || c == '\u{3000}'
}

/// A text that holds nothing but white space.
pub open spec fn blank(b: Seq<u8>) -> bool {
    forall|i: int| 0 <= i < decode_utf8(b).len() ==> white(#[trigger] decode_utf8(b)[i])
}

/// Whether `s` holds nothing but white space.
pub fn is_blank(s: &str) -> (r: bool)
    ensures
        r == blank(utf8(s@)),
{
    let n: usize = s.unicode_len();
    let mut i: usize = 0;
    proof {
        encode_utf8_decode_utf8(s@);
    }
    while i < n
        invariant
            decode_utf8(utf8(s@)) == s@,
            n == s@.len(),
            i <= n,
            forall|j: int| 0 <= j < i ==> white(#[trigger] s@[j]),
        decreases n - i,
    {
        if !is_white(s.get_char(i)) {
            assert(!white(decode_utf8(utf8(s@))[i as int]));
            return false;
        }
        i += 1;
    }
    true
}

// ---------------------------------------------------------------------------
// Letter case
// ---------------------------------------------------------------------------

/// An ASCII capital as its small letter, any other byte as it is.
pub open spec fn lower_byte(x: u8) -> u8 {
    if 65 <= x <= 90 {
        (x + 32) as u8
    } else {
        x
    }
}

/// `b` with its ASCII capitals as small letters.
pub open spec fn folded(b: Seq<u8>) -> Seq<u8> {
    b.map_values(|x: u8| lower_byte(x))
}

pub(crate) fn to_lower_byte(x: u8) -> (r: u8)
    ensures
        r == lower_byte(x),
{
    if 65 <= x && x <= 90 {
        x + 32
    } else {
        x
    }
}

/// Whether `a` and `b` differ at most in the case of ASCII letters.
pub fn same_folded(a: &str, b: &str) -> (r: bool)
    ensures
        r == (folded(utf8(a@)) == folded(utf8(b@))),
{
    let x = a.as_bytes();
    let y = b.as_bytes();
    if x.len() != y.len() {
        assert(folded(utf8(a@)).len() != folded(utf8(b@)).len());
        return false;
    }
    let mut i: usize = 0;
    while i < x.len()
        invariant
            x@ == utf8(a@),
            y@ == utf8(b@),
            x.len() == y.len(),
            i <= x.len(),
            forall|j: int| 0 <= j < i ==> lower_byte(#[trigger] x@[j]) == lower_byte(y@[j]),
        decreases x.len() - i,
    {
        if to_lower_byte(x[i]) != to_lower_byte(y[i]) {
            assert(folded(utf8(a@))[i as int] != folded(utf8(b@))[i as int]);
            return false;
        }
        i += 1;
    }
    assert(folded(utf8(a@)) =~= folded(utf8(b@)));
    true
}

/// The text that std's `to_lowercase` gives for one that is not ASCII.
pub uninterp spec fn lowered(b: Seq<u8>) -> Seq<u8>;

/// Only ASCII.
pub open spec fn is_ascii_bytes(b: Seq<u8>) -> bool {
    forall|i: int| 0 <= i < b.len() ==> (#[trigger] b[i]) < 128
}

/// A text in lower case.
pub open spec fn lower_case(b: Seq<u8>) -> Seq<u8> {
    if is_ascii_bytes(b) {
        folded(b)
    } else {
        lowered(b)
    }
}

/// `str::to_lowercase`: the text with its characters in lower case, as Unicode has
/// it; ASCII characters become their ASCII lower case.
#[verifier::external_body]
pub(crate) fn to_lowercase(s: &str) -> (r: String)
    ensures
        is_ascii_bytes(utf8(s@)) ==> utf8(r@) == folded(utf8(s@)),
        !is_ascii_bytes(utf8(s@)) ==> utf8(r@) == lowered(utf8(s@)),
{
    s.to_lowercase()
}

/// `String::from_utf8`: the text that bytes spell, where they are UTF-8.
#[verifier::external_body]
pub(crate) fn string_of(bytes: Vec<u8>) -> (text: Option<String>)
    ensures
        match text {
            Some(s) => utf8(s@) == bytes@,
            None => !valid_utf8(bytes@),
        },
{
    String::from_utf8(bytes).ok()
}

} // verus!
