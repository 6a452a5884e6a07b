//! `PopPopCell`: a calculator. What is typed is on the left; every line but the
//! last, which is still being typed, has its result on the right. Lines that
//! start with `#` are notes. The host evaluates the lines that this module hands
//! out and gives the answers back.
use vstd::prelude::*;
use vstd::utf8::*;

use crate::text;
use crate::cell::bullets::{caret_put, zoomed};
use crate::cell::common::{KeyEvent, Modifiers};
use crate::cell::model::{after_key, after_mouse_down, after_mouse_up, key_edits, Click, TextModel};
use crate::cell::textbox::{bytes_of, optional_bytes, TextBox, TextBoxSnapshot};
use crate::cell::wrap::{first_solid, solid_from};
use crate::text::{
    boundary, first_byte, lemma_after_ascii, lemma_ascii_is_boundary, lemma_boundary_ends,
    lemma_first_byte, lemma_utf8_valid, utf8, views,
};

verus! {

/// A committed line of a calculation.
#[verifier::ext_equal]
pub enum CalcModel {
    /// Blank, or a note: it has no result.
    Note,
    /// To be evaluated.
    Expression(Seq<u8>),
}

/// The line from `from` to `end`: a note where it is blank or its first character
/// that is no white space is `#`.
pub open spec fn calc_line(b: Seq<u8>, from: int, end: int) -> CalcModel {
    let p = first_solid(b, from, end);
    if p >= end || b[p] == 35 {
        CalcModel::Note
    } else {
        CalcModel::Expression(b.subrange(from, end))
    }
}

/// The lines from `from` on that a line feed closes.
pub open spec fn calc_lines(b: Seq<u8>, from: int) -> Seq<CalcModel>
    decreases b.len() - from,
{
    let nl = first_byte(b, 10, from);
    if from < 0 || nl >= b.len() || nl < from {
        Seq::empty()
    } else {
        seq![calc_line(b, from, nl)] + calc_lines(b, nl + 1)
    }
}

/// What an expression came to: its result as text, or what was wrong with it.
pub type Answer = Result<String, String>;

/// The mathematical content of an answer.
pub open spec fn answer_view(a: Answer) -> Result<Seq<u8>, Seq<u8>> {
    match a {
        Ok(s) => Ok(utf8(s@)),
        Err(s) => Err(utf8(s@)),
    }
}

/// The mathematical content of answers.
pub open spec fn answer_views(a: Seq<Answer>) -> Seq<Result<Seq<u8>, Seq<u8>>> {
    Seq::new(a.len(), |i: int| answer_view(a[i]))
}

/// The first line of a text: up to its first line end, a line feed or a carriage
/// return and a line feed.
pub open spec fn first_line(b: Seq<u8>) -> Seq<u8> {
    let nl = first_byte(b, 10, 0);
    if nl < b.len() && nl > 0 && b[nl - 1] == 13 {
        b.subrange(0, nl - 1)
    } else {
        b.subrange(0, nl)
    }
}

/// The number of expressions among the first `n` lines.
pub open spec fn expressions(lines: Seq<CalcModel>, n: int) -> int
    decreases n,
{
    if n <= 0 {
        0
    } else if lines[n - 1] is Expression {
        expressions(lines, n - 1) + 1
    } else {
        expressions(lines, n - 1)
    }
}

/// What line `i` puts on the right: the result of its expression; nothing for a
/// note or where something was wrong.
pub open spec fn result_of(
    lines: Seq<CalcModel>,
    answers: Seq<Result<Seq<u8>, Seq<u8>>>,
    i: int,
) -> Seq<u8> {
    if lines[i] is Expression {
        match answers[expressions(lines, i)] {
            Ok(s) => s,
            Err(_) => Seq::empty(),
        }
    } else {
        Seq::empty()
    }
}

/// What the lines put on the right, one text for each of them.
pub open spec fn results(
    lines: Seq<CalcModel>,
    answers: Seq<Result<Seq<u8>, Seq<u8>>>,
) -> Seq<Seq<u8>> {
    Seq::new(lines.len(), |i: int| result_of(lines, answers, i))
}

/// The first `n` of some lines, a line feed between each two.
pub open spec fn one_to_a_line(lines: Seq<Seq<u8>>, n: int) -> Seq<u8>
    decreases n,
{
    if n <= 0 {
        Seq::empty()
    } else if n == 1 {
        lines[0]
    } else {
        one_to_a_line(lines, n - 1) + seq![10u8] + lines[n - 1]
    }
}

/// What was wrong in the first `n` lines: the line, and the first line of the
/// message.
pub open spec fn failures(
    lines: Seq<CalcModel>,
    answers: Seq<Result<Seq<u8>, Seq<u8>>>,
    n: int,
) -> Seq<(int, Seq<u8>)>
    decreases n,
{
    if n <= 0 {
        Seq::empty()
    } else {
        let rest = failures(lines, answers, n - 1);
        if lines[n - 1] is Expression {
            match answers[expressions(lines, n - 1)] {
                Ok(_) => rest,
                Err(m) => rest.push((n - 1, first_line(m))),
            }
        } else {
            rest
        }
    }
}

/// The whole state of a calculator.
#[verifier::ext_equal]
pub struct PopPopModel {
    pub input: TextModel,
    pub output: TextModel,
    /// The input that the output is of.
    pub computed: Seq<u8>,
    pub errors: Seq<(int, Seq<u8>)>,
}

impl PopPopModel {
    /// Both texts are well formed.
    pub open spec fn wf(self) -> bool {
        self.input.wf() && self.output.wf()
    }

    /// A new calculator.
    pub open spec fn fresh() -> PopPopModel {
        let t = TextModel::fresh(Seq::empty());
        PopPopModel {
            input: TextModel { comment_coloring: true, ..t },
            output: t,
            computed: Seq::empty(),
            errors: Seq::empty(),
        }
    }

    /// The lines that are to be evaluated.
    pub open spec fn lines(self) -> Seq<CalcModel> {
        calc_lines(self.input.doc.text, 0)
    }

    /// The answers put in place.
    pub open spec fn answered(
        self,
        answers: Seq<Result<Seq<u8>, Seq<u8>>>,
        now: u64,
    ) -> PopPopModel {
        let lines = self.lines();
        let text = one_to_a_line(results(lines, answers), lines.len() as int);
        PopPopModel {
            output: if self.output.doc.text == text {
                self.output
            } else {
                self.output.replaced_text(text, now)
            },
            computed: self.input.doc.text,
            errors: failures(lines, answers, lines.len() as int),
            ..self
        }
    }

    /// A press of the mouse button on the left: selections on the right collapse.
    pub open spec fn pressed_left(
        self,
        click: Click,
        mods: Modifiers,
        editing: bool,
    ) -> PopPopModel {
        PopPopModel {
            input: after_mouse_down(self.input, click, mods, editing),
            output: caret_put(self.output, 0),
            ..self
        }
    }

    /// A press of the mouse button on the right: selections on the left collapse.
    pub open spec fn pressed_right(self, click: Click, mods: Modifiers) -> PopPopModel {
        PopPopModel {
            input: caret_put(self.input, self.input.doc.text.len() as int),
            output: after_mouse_down(self.output, click, mods, false),
            ..self
        }
    }

    /// What copying gives: what is selected on the right, else on the left.
    pub open spec fn copied(self) -> Seq<u8> {
        if self.output.primary_text().len() > 0 {
            self.output.primary_text()
        } else {
            self.input.primary_text()
        }
    }
}

pub proof fn lemma_expressions(lines: Seq<CalcModel>, i: int, n: int)
    requires
        0 <= i <= n <= lines.len(),
    ensures
        0 <= expressions(lines, i) <= expressions(lines, n) <= n,
        i < n && lines[i] is Expression ==> expressions(lines, i) < expressions(lines, n),
    decreases n,
{
    if n > 0 {
        if i < n {
            lemma_expressions(lines, i, n - 1);
        } else {
            lemma_expressions(lines, n - 1, n - 1);
        }
    }
}

/// Every line has a result line of its own: where line `i` is a note, or was
/// wrong, it is empty; and every failure tells of a line that was wrong.
pub proof fn failures_tell_of_expressions_that_failed(
    lines: Seq<CalcModel>,
    answers: Seq<Result<Seq<u8>, Seq<u8>>>,
    n: int,
    k: int,
)
    requires
        0 <= n <= lines.len(),
        0 <= k < failures(lines, answers, n).len(),
    ensures
        ({
            let i = failures(lines, answers, n)[k].0;
            &&& 0 <= i < n
            &&& lines[i] is Expression
            &&& answers[expressions(lines, i)] is Err
            &&& result_of(lines, answers, i).len() == 0
        }),
    decreases n,
{
    if n > 0 && k < failures(lines, answers, n - 1).len() {
        failures_tell_of_expressions_that_failed(lines, answers, n - 1, k);
    }
}

/// A committed line of a calculation.
pub enum CalcLine {
    Note,
    Expression(String),
}

impl View for CalcLine {
    type V = CalcModel;

    open spec fn view(&self) -> CalcModel {
        match self {
            CalcLine::Note => CalcModel::Note,
            CalcLine::Expression(s) => CalcModel::Expression(utf8(s@)),
        }
    }
}

/// The lines of `input` that a line feed closes, those to be evaluated among
/// them.
pub fn committed_lines(input: &str) -> (lines: Vec<CalcLine>)
    ensures
        views(lines@) == calc_lines(utf8(input@), 0),
{
    let ghost b = utf8(input@);
    let mut lines: Vec<CalcLine> = Vec::new();
    let n: usize = text::len(input);
    let mut from: usize = 0;
    let mut nl: usize = text::find_byte(input, 10, 0);
    proof {
        lemma_utf8_valid(input@);
        lemma_boundary_ends(b);
        lemma_first_byte(b, 10, 0);
        assert(views(lines@) + calc_lines(b, 0) =~= calc_lines(b, 0));
    }
    while nl < n
        invariant
            n == b.len(),
            b == utf8(input@),
            valid_utf8(b),
            from <= nl <= n,
            boundary(b, from as int),
            nl == first_byte(b, 10, from as int),
            nl < n ==> b[nl as int] == 10,
            views(lines@) + calc_lines(b, from as int) == calc_lines(b, 0),
        decreases n - from,
    {
        proof {
            lemma_ascii_is_boundary(b, nl as int);
            lemma_after_ascii(b, nl as int);
        }
        let p: usize = solid_from(input, from, nl);
        let line = if p >= nl || text::byte_at(input, p) == 35 {
            CalcLine::Note
        } else {
            CalcLine::Expression(text::copy(text::slice(input, from, nl)))
        };
        let ghost held = lines@;
        lines.push(line);
        proof {
            assert(lines@.last()@ == calc_line(b, from as int, nl as int));
            assert(views(lines@) =~= views(held).push(lines@.last()@));
            assert(views(lines@) + calc_lines(b, nl + 1) =~= views(held) + calc_lines(
                b,
                from as int,
            ));
        }
        from = nl + 1;
        nl = text::find_byte(input, 10, from);
        proof {
            lemma_first_byte(b, 10, from as int);
        }
    }
    assert(views(lines@) + calc_lines(b, from as int) =~= views(lines@));
    lines
}

/// The first line of `s`.
pub fn take_first_line(s: &str) -> (line: String)
    ensures
        utf8(line@) == first_line(utf8(s@)),
{
    let ghost b = utf8(s@);
    let n: usize = text::len(s);
    let nl: usize = text::find_byte(s, 10, 0);
    proof {
        lemma_utf8_valid(s@);
        lemma_boundary_ends(b);
        lemma_first_byte(b, 10, 0);
        if nl < n {
            lemma_ascii_is_boundary(b, nl as int);
        }
    }
    if nl < n && nl > 0 && text::byte_at(s, nl - 1) == 13 {
        proof {
            lemma_ascii_is_boundary(b, nl - 1);
        }
        text::copy(text::slice(s, 0, nl - 1))
    } else {
        text::copy(text::slice(s, 0, nl))
    }
}

/// What was wrong, as the host draws it: the line, and the message.
pub open spec fn failure_views(v: Seq<(usize, String)>) -> Seq<(int, Seq<u8>)> {
    Seq::new(v.len(), |i: int| (v[i].0 as int, utf8(v[i].1@)))
}

/// Puts answers in line with the committed lines: the result of each line, and what
/// was wrong. `answers` are those of the expressions, in order.
pub fn compute_poppop_output(lines: &Vec<CalcLine>, answers: &Vec<Answer>) -> (r: (
    Vec<String>,
    Vec<(usize, String)>,
))
    requires
        answers@.len() == expressions(views(lines@), lines@.len() as int),
    ensures
        bytes_of(r.0@) == results(views(lines@), answer_views(answers@)),
        failure_views(r.1@) == failures(
            views(lines@),
            answer_views(answers@),
            lines@.len() as int,
        ),
{
    let ghost ls = views(lines@);
    let ghost ans = answer_views(answers@);
    let mut out: Vec<String> = Vec::new();
    let mut errs: Vec<(usize, String)> = Vec::new();
    let mut i: usize = 0;
    let mut k: usize = 0;
    proof {
        assert(failure_views(errs@) =~= Seq::<(int, Seq<u8>)>::empty());
    }
    while i < lines.len()
        invariant
            i <= lines.len(),
            ls == views(lines@),
            ans == answer_views(answers@),
            answers@.len() == expressions(ls, ls.len() as int),
            k == expressions(ls, i as int),
            out@.len() == i,
            forall|j: int| 0 <= j < i ==> utf8((#[trigger] out@[j])@) == result_of(ls, ans, j),
            failure_views(errs@) == failures(ls, ans, i as int),
        decreases lines.len() - i,
    {
        assert(ls[i as int] == lines@[i as int]@);
        let ghost held = errs@;
        match &lines[i] {
            CalcLine::Note => {
                out.push(String::new());
                assert(utf8(out@[i as int]@) =~= Seq::<u8>::empty());
            },
            CalcLine::Expression(_) => {
                proof {
                    lemma_expressions(ls, i as int, ls.len() as int);
                    lemma_expressions(ls, i + 1, ls.len() as int);
                }
                assert(ans[k as int] == answer_view(answers@[k as int]));
                match &answers[k] {
                    Ok(s) => {
                        out.push(text::copy(s.as_str()));
                    },
                    Err(e) => {
                        out.push(String::new());
                        assert(utf8(out@[i as int]@) =~= Seq::<u8>::empty());
                        errs.push((i, take_first_line(e.as_str())));
                        assert(failure_views(errs@) =~= failure_views(held).push(
                            (i as int, first_line(utf8(e@))),
                        ));
                    },
                }
                k += 1;
            },
        }
        i += 1;
    }
    assert(bytes_of(out@) =~= results(ls, ans));
    (out, errs)
}

fn join_lines(lines: &Vec<String>) -> (out: String)
    ensures
        utf8(out@) == one_to_a_line(bytes_of(lines@), lines@.len() as int),
{
    let ghost all = bytes_of(lines@);
    let mut out = String::new();
    let mut i: usize = 0;
    proof {
        assert(utf8(out@) =~= Seq::<u8>::empty());
        reveal_strlit("\n");
        is_ascii_chars_encode_utf8("\n"@);
        assert(utf8("\n"@) =~= seq![10u8]);
    }
    while i < lines.len()
        invariant
            i <= lines.len(),
            all == bytes_of(lines@),
            utf8("\n"@) == seq![10u8],
            utf8(out@) == one_to_a_line(all, i as int),
        decreases lines.len() - i,
    {
        if i > 0 {
            text::push_str(&mut out, "\n");
        }
        text::push_str(&mut out, lines[i].as_str());
        i += 1;
        assert(utf8(out@) =~= one_to_a_line(all, i as int));
    }
    out
}

/// A calculator.
pub struct PopPopCell {
    textbox: TextBox,
    output: TextBox,
    cached_input: String,
    errors: Vec<(usize, String)>,
}

impl View for PopPopCell {
    type V = PopPopModel;

    closed spec fn view(&self) -> PopPopModel {
        PopPopModel {
            input: self.textbox@,
            output: self.output@,
            computed: utf8(self.cached_input@),
            errors: failure_views(self.errors@),
        }
    }
}

impl PopPopCell {
    /// A new calculator.
    pub fn new() -> (p: PopPopCell)
        ensures
            p@ == PopPopModel::fresh(),
            p@.wf(),
    {
        let none = String::new();
        assert(utf8(none@) =~= Seq::<u8>::empty());
        let output = TextBox::new(String::new());
        let mut textbox = TextBox::new(String::new());
        textbox.set_enable_comment_coloring(true);
        let p = PopPopCell { textbox, output, cached_input: none, errors: Vec::new() };
        assert(p@ =~= PopPopModel::fresh());
        p
    }

    /// What is typed.
    pub fn textbox(&self) -> (t: &TextBox)
        ensures
            (*t)@ == self@.input,
    {
        &self.textbox
    }

    /// What is typed, to be changed.
    pub fn textbox_mut(&mut self) -> (t: &mut TextBox)
        ensures
            (*t)@ == old(self)@.input,
            final(self)@ == (PopPopModel { input: final(t)@, ..old(self)@ }),
    {
        &mut self.textbox
    }

    /// The results.
    pub fn output(&self) -> (t: &TextBox)
        ensures
            (*t)@ == self@.output,
    {
        &self.output
    }

    /// The results, to be selected in.
    pub fn output_mut(&mut self) -> (t: &mut TextBox)
        ensures
            (*t)@ == old(self)@.output,
            final(self)@ == (PopPopModel { output: final(t)@, ..old(self)@ }),
    {
        &mut self.output
    }

    /// What was wrong: the line, and the message.
    pub fn errors(&self) -> (e: &[(usize, String)])
        ensures
            failure_views(e@) == self@.errors,
    {
        self.errors.as_slice()
    }

    /// Whether the input has changed since the results were computed.
    pub fn is_stale(&self) -> (r: bool)
        ensures
            r == (self@.computed != self@.input.doc.text),
    {
        !text::same(self.cached_input.as_str(), self.textbox.text())
    }

    /// The committed lines, for the host to evaluate the expressions among them.
    pub fn lines(&self) -> (lines: Vec<CalcLine>)
        ensures
            views(lines@) == self@.lines(),
    {
        committed_lines(self.textbox.text())
    }

    /// Puts the answers to the expressions among the committed lines in place.
    pub fn set_answers(&mut self, answers: &Vec<Answer>, now: u64)
        requires
            old(self)@.wf(),
            answers@.len() == expressions(old(self)@.lines(), old(self)@.lines().len() as int),
        ensures
            final(self)@ == old(self)@.answered(answer_views(answers@), now),
            final(self)@.wf(),
    {
        let lines = self.lines();
        let (results, errs) = compute_poppop_output(&lines, answers);
        assert(bytes_of(results@).len() == results@.len());
        let text = join_lines(&results);
        self.cached_input = text::copy(self.textbox.text());
        self.errors = errs;
        if !text::same(self.output.text(), text.as_str()) {
            self.output.replace_text(text, now);
        }
        assert(self@ =~= old(self)@.answered(answer_views(answers@), now));
    }

    /// The address that the last press of the mouse button marked, handed out
    /// once: on the left, else on the right.
    pub fn take_pending_link_url(&mut self) -> (url: Option<String>)
        requires
            old(self)@.wf(),
        ensures
            ({
                let m = old(self)@;
                if m.input.pending_url is Some {
                    &&& optional_bytes(url) == m.input.pending_url
                    &&& final(self)@ == (PopPopModel {
                        input: TextModel { pending_url: None, ..m.input },
                        ..m
                    })
                } else {
                    &&& optional_bytes(url) == m.output.pending_url
                    &&& final(self)@ == (PopPopModel {
                        output: TextModel { pending_url: None, ..m.output },
                        ..m
                    })
                }
            }),
            final(self)@.wf(),
    {
        if self.textbox.has_pending_link() {
            self.textbox.take_pending_link_url()
        } else {
            self.output.take_pending_link_url()
        }
    }

    /// Handles a key: it goes to what is typed. Returns whether it was taken.
    pub fn handle_key(&mut self, event: &KeyEvent, mods: Modifiers, now: u64) -> (r: bool)
        requires
            old(self)@.wf(),
            old(self)@.input.can_apply(key_edits(old(self)@.input, *event, mods)),
        ensures
            ({
                let after = after_key(old(self)@.input, *event, mods, now);
                final(self)@ == (PopPopModel { input: after.0, ..old(self)@ }) && r == after.1
            }),
            final(self)@.wf(),
    {
        self.textbox.handle_key(event, mods, now)
    }

    /// Handles a press of the mouse button on the left column.
    pub fn mouse_down_in_input(&mut self, click: Click, mods: Modifiers, editing: bool) -> (r: bool)
        requires
            old(self)@.wf(),
            boundary(old(self)@.input.doc.text, click.idx as int),
        ensures
            r,
            final(self)@ == old(self)@.pressed_left(click, mods, editing),
            final(self)@.wf(),
    {
        self.output.set_caret_at(0);
        self.textbox.mouse_down(click, mods, editing)
    }

    /// Handles a press of the mouse button on the right column.
    pub fn mouse_down_in_output(&mut self, click: Click, mods: Modifiers) -> (r: bool)
        requires
            old(self)@.wf(),
            boundary(old(self)@.output.doc.text, click.idx as int),
        ensures
            r,
            final(self)@ == old(self)@.pressed_right(click, mods),
            final(self)@.wf(),
    {
        let end: usize = text::len(self.textbox.text());
        self.textbox.set_caret_at(end);
        self.output.mouse_down(click, mods, false)
    }

    /// Ends a drag in either column. Returns whether there was one.
    pub fn mouse_up(&mut self) -> (r: bool)
        requires
            old(self)@.wf(),
        ensures
            final(self)@ == (PopPopModel {
                input: after_mouse_up(old(self)@.input),
                output: after_mouse_up(old(self)@.output),
                ..old(self)@
            }),
            r == (old(self)@.input.drag is Some || old(self)@.output.drag is Some),
            final(self)@.wf(),
    {
        let a: bool = self.textbox.mouse_up();
        let b: bool = self.output.mouse_up();
        a || b
    }

    /// What is selected on the right, else on the left.
    pub fn copy_selection(&self) -> (s: String)
        requires
            self@.wf(),
        ensures
            utf8(s@) == self@.copied(),
    {
        let out = self.output.copy_primary_selection();
        if text::len(out.as_str()) > 0 {
            return out;
        }
        self.textbox.copy_primary_selection()
    }

    /// A copy of what undo restores.
    pub fn snapshot(&self) -> (s: TextBoxSnapshot)
        ensures
            s@ == self@.input.doc,
    {
        self.textbox.snapshot()
    }

    /// Puts a snapshot back.
    pub fn restore(&mut self, snap: TextBoxSnapshot)
        requires
            old(self)@.wf(),
            snap@.wf(),
        ensures
            final(self)@ == (PopPopModel {
                input: old(self)@.input.restored(snap@),
                ..old(self)@
            }),
            final(self)@.wf(),
    {
        self.textbox.restore(snap);
    }

    /// Sets the zoom factor of both columns.
    pub fn set_font_scale(&mut self, scale: u32)
        requires
            old(self)@.wf(),
        ensures
            final(self)@ == (PopPopModel {
                input: zoomed(old(self)@.input, scale),
                output: zoomed(old(self)@.output, scale),
                ..old(self)@
            }),
            final(self)@.wf(),
    {
        self.textbox.set_font_scale(scale);
        self.output.set_font_scale(scale);
    }
}

} // verus!
