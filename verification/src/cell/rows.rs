//! What a calculator shows, row by row.
use vstd::prelude::*;
use vstd::utf8::*;

use crate::cell::poppop::{
    calc_line, calc_lines, expressions, failures, first_line, lemma_expressions, one_to_a_line,
    result_of, results, CalcModel, PopPopModel,
};
use crate::cell::wrap::{first_solid, lemma_next_boundary, lemma_no_boundary_between, next_boundary};
use crate::text::{boundary, char_at, first_byte, lemma_first_byte, white};

verus! {

/// The parts of `b` between the bytes `by`. There is always one part more than there are
/// such bytes.
pub open spec fn parted(b: Seq<u8>, by: u8) -> Seq<Seq<u8>>
    decreases b.len(),
{
    if b.len() == 0 {
        seq![Seq::empty()]
    } else {
        let rest = parted(b.drop_last(), by);
        if b.last() == by {
            rest.push(Seq::empty())
        } else {
            rest.update(rest.len() - 1, rest.last().push(b.last()))
        }
    }
}

/// `b` does not hold the byte.
pub open spec fn free_of(b: Seq<u8>, byte: u8) -> bool {
    forall|i: int| 0 <= i < b.len() ==> #[trigger] b[i] != byte
}

pub proof fn lemma_parted_len(b: Seq<u8>, by: u8)
    ensures
        parted(b, by).len() > 0,
    decreases b.len(),
{
    if b.len() > 0 {
        lemma_parted_len(b.drop_last(), by);
    }
}

pub proof fn lemma_one_part(b: Seq<u8>, by: u8)
    requires
        free_of(b, by),
    ensures
        parted(b, by) == seq![b],
    decreases b.len(),
{
    if b.len() > 0 {
        let front = b.drop_last();
        assert forall|i: int| 0 <= i < front.len() implies #[trigger] front[i] != by by {
            assert(front[i] == b[i]);
        }
        lemma_one_part(front, by);
        assert(b.last() != by);
        assert(front.push(b.last()) =~= b);
        assert(parted(b, by) =~= seq![b]);
    } else {
        assert(b =~= Seq::empty());
        assert(parted(b, by) =~= seq![b]);
    }
}

pub proof fn lemma_part_added(a: Seq<u8>, by: u8, c: Seq<u8>)
    requires
        free_of(c, by),
    ensures
        parted(a + seq![by] + c, by) == parted(a, by).push(c),
    decreases c.len(),
{
    let whole = a + seq![by] + c;
    lemma_parted_len(a, by);
    if c.len() == 0 {
        assert(whole.drop_last() =~= a);
        assert(whole.last() == by);
        assert(c =~= Seq::empty());
    } else {
        let front = c.drop_last();
        assert forall|i: int| 0 <= i < front.len() implies #[trigger] front[i] != by by {
            assert(front[i] == c[i]);
        }
        lemma_part_added(a, by, front);
        assert(whole.drop_last() =~= a + seq![by] + front);
        assert(whole.last() == c.last());
        assert(c.last() != by);
        assert(front.push(c.last()) =~= c);
        assert(parted(whole, by) =~= parted(a, by).push(c));
    }
}

proof fn lemma_lines_parted(lines: Seq<Seq<u8>>, n: int)
    requires
        0 < n <= lines.len(),
        forall|i: int| 0 <= i < n ==> free_of(#[trigger] lines[i], 10),
    ensures
        parted(one_to_a_line(lines, n), 10) == lines.subrange(0, n),
    decreases n,
{
    if n == 1 {
        lemma_one_part(lines[0], 10);
        assert(lines.subrange(0, 1) =~= seq![lines[0]]);
    } else {
        lemma_lines_parted(lines, n - 1);
        lemma_part_added(one_to_a_line(lines, n - 1), 10, lines[n - 1]);
        assert(lines.subrange(0, n) =~= lines.subrange(0, n - 1).push(lines[n - 1]));
    }
}

/// How many of the lines in front of line `i` are expressions.
pub open spec fn evaluated_before(lines: Seq<CalcModel>, i: int) -> int {
    lines.take(i).filter(|l: CalcModel| l is Expression).len() as int
}

proof fn lemma_counted(lines: Seq<CalcModel>, n: int)
    requires
        0 <= n <= lines.len(),
    ensures
        expressions(lines, n) == evaluated_before(lines, n),
    decreases n,
{
    let f = |l: CalcModel| l is Expression;
    reveal(Seq::filter);
    if n > 0 {
        lemma_counted(lines, n - 1);
        assert(lines.take(n).drop_last() =~= lines.take(n - 1));
        assert(lines.take(n).last() == lines[n - 1]);
    } else {
        assert(lines.take(0) =~= Seq::empty());
    }
}

/// The rows of the output: its parts between line feeds.
pub open spec fn output_rows(
    m: PopPopModel,
    answers: Seq<Result<Seq<u8>, Seq<u8>>>,
    now: u64,
) -> Seq<Seq<u8>> {
    parted(m.answered(answers, now).output.doc.text, 10)
}

/// What row `i` has to say: the answer to the expression on line `i`, the answers being
/// counted by expressions; nothing for a note, or where something was wrong.
pub open spec fn says_its_result(
    lines: Seq<CalcModel>,
    answers: Seq<Result<Seq<u8>, Seq<u8>>>,
    i: int,
    row: Seq<u8>,
) -> bool {
    let k = evaluated_before(lines, i);
    &&& lines[i] is Note ==> row.len() == 0
    &&& lines[i] is Expression ==> {
        &&& 0 <= k < answers.len()
        &&& answers[k] is Ok ==> row == answers[k]->Ok_0
        &&& answers[k] is Err ==> row.len() == 0
    }
}

/// Row `i` of the output is the result of committed line `i`: the rows are the parts of the
/// output between its line feeds, as many as there are lines and in their order.
pub proof fn rows_are_the_results_of_their_lines(
    m: PopPopModel,
    answers: Seq<Result<Seq<u8>, Seq<u8>>>,
    now: u64,
)
    requires
        m.lines().len() > 0,
        forall|k: int|
            0 <= k < answers.len() && answers[k] is Ok ==> free_of(#[trigger] answers[k]->Ok_0, 10),
        answers.len() == evaluated_before(m.lines(), m.lines().len() as int),
    ensures
        output_rows(m, answers, now) == results(m.lines(), answers),
        output_rows(m, answers, now).len() == m.lines().len(),
        forall|i: int|
            0 <= i < m.lines().len() ==> says_its_result(
                m.lines(),
                answers,
                i,
                #[trigger] output_rows(m, answers, now)[i],
            ),
{
    let lines = m.lines();
    let n = lines.len() as int;
    let rs = results(lines, answers);
    assert(lines.take(n) =~= lines);
    lemma_counted(lines, n);
    assert forall|i: int| 0 <= i < n implies {
        &&& free_of(#[trigger] rs[i], 10)
        &&& lines[i] is Expression ==> 0 <= expressions(lines, i) < answers.len()
    } by {
        lemma_expressions(lines, i, n);
        assert(rs[i] == result_of(lines, answers, i));
    }
    lemma_lines_parted(rs, n);
    assert(rs.subrange(0, n) =~= rs);
    let rows = output_rows(m, answers, now);
    assert(rows == rs);
    assert forall|i: int| 0 <= i < n implies says_its_result(
        lines,
        answers,
        i,
        #[trigger] rows[i],
    ) by {
        lemma_counted(lines, i);
        assert(free_of(rs[i], 10));
        assert(rs[i] == result_of(lines, answers, i));
    }
}

/// Every expression that something was wrong with is told of: with its line, and with what
/// its message says up to the first line feed.
pub proof fn every_failure_is_told(
    lines: Seq<CalcModel>,
    answers: Seq<Result<Seq<u8>, Seq<u8>>>,
    n: int,
    i: int,
)
    requires
        0 <= i < n <= lines.len(),
        lines[i] is Expression,
        answers[evaluated_before(lines, i)] is Err,
    ensures
        ({
            let k = evaluated_before(lines, i);
            let said = answers[k]->Err_0;
            exists|j: int|
                {
                    &&& 0 <= j < failures(lines, answers, n).len()
                    &&& (#[trigger] failures(lines, answers, n)[j]).0 == i
                    &&& free_of(failures(lines, answers, n)[j].1, 10)
                    &&& failures(lines, answers, n)[j].1.len() <= said.len()
                    &&& failures(lines, answers, n)[j].1 == said.subrange(
                        0,
                        failures(lines, answers, n)[j].1.len() as int,
                    )
                    &&& free_of(said, 10) ==> failures(lines, answers, n)[j].1 == said
                }
        }),
    decreases n,
{
    let k = evaluated_before(lines, i);
    let said = answers[k]->Err_0;
    let fs = failures(lines, answers, n);
    lemma_counted(lines, i);
    if i == n - 1 {
        let j = fs.len() - 1;
        lemma_first_byte(said, 10, 0);
        assert(fs[j] == (i, first_line(said)));
        let nl = first_byte(said, 10, 0);
        let line = first_line(said);
        assert forall|p: int| 0 <= p < line.len() implies #[trigger] line[p] != 10 by {
            assert(line[p] == said[p]);
        }
        assert(line =~= said.subrange(0, line.len() as int));
        assert(free_of(said, 10) ==> nl == said.len());
        assert(said.subrange(0, said.len() as int) =~= said);
    } else {
        every_failure_is_told(lines, answers, n - 1, i);
        let before = failures(lines, answers, n - 1);
        let j = choose|j: int|
            {
                &&& 0 <= j < before.len()
                &&& (#[trigger] before[j]).0 == i
                &&& free_of(before[j].1, 10)
                &&& before[j].1.len() <= said.len()
                &&& before[j].1 == said.subrange(0, before[j].1.len() as int)
                &&& free_of(said, 10) ==> before[j].1 == said
            };
        assert(fs[j] == before[j]);
    }
}

pub proof fn lemma_part_in_front(c: Seq<u8>, by: u8, y: Seq<u8>)
    requires
        free_of(c, by),
    ensures
        parted(c + seq![by] + y, by) == seq![c] + parted(y, by),
    decreases y.len(),
{
    let whole = c + seq![by] + y;
    if y.len() == 0 {
        lemma_one_part(c, by);
        assert(whole.drop_last() =~= c);
        assert(whole.last() == by);
        assert(parted(y, by) == seq![Seq::<u8>::empty()]);
        assert(parted(whole, by) =~= seq![c] + parted(y, by));
    } else {
        let less = y.drop_last();
        lemma_part_in_front(c, by, less);
        lemma_parted_len(less, by);
        assert(whole.drop_last() =~= c + seq![by] + less);
        assert(whole.last() == y.last());
        assert(parted(whole, by) =~= seq![c] + parted(y, by));
    }
}

proof fn lemma_committed(b: Seq<u8>, from: int)
    requires
        0 <= from <= b.len(),
    ensures
        ({
            let rows = parted(b.subrange(from, b.len() as int), 10);
            let lines = calc_lines(b, from);
            &&& lines.len() == rows.len() - 1
            &&& forall|i: int|
                0 <= i < lines.len() ==> ((#[trigger] lines[i]) matches CalcModel::Expression(e)
                    ==> e == rows[i])
        }),
    decreases b.len() - from,
{
    let nl = first_byte(b, 10, from);
    lemma_first_byte(b, 10, from);
    let tail = b.subrange(from, b.len() as int);
    let lines = calc_lines(b, from);
    if nl < b.len() {
        let c = b.subrange(from, nl);
        let y = b.subrange(nl + 1, b.len() as int);
        assert forall|i: int| 0 <= i < c.len() implies #[trigger] c[i] != 10 by {
            assert(c[i] == b[from + i]);
        }
        assert(tail =~= c + seq![10u8] + y);
        lemma_part_in_front(c, 10, y);
        lemma_committed(b, nl + 1);
        let rest = calc_lines(b, nl + 1);
        assert(lines == seq![calc_line(b, from, nl)] + rest);
        let rows = parted(tail, 10);
        assert forall|i: int| 0 <= i < lines.len() implies ((
        #[trigger] lines[i]) matches CalcModel::Expression(e) ==> e == rows[i]) by {
            if i > 0 {
                assert(lines[i] == rest[i - 1]);
                assert(rows[i] == parted(y, 10)[i - 1]);
            }
        }
    } else {
        assert forall|i: int| 0 <= i < tail.len() implies #[trigger] tail[i] != 10 by {
            assert(tail[i] == b[from + i]);
        }
        lemma_one_part(tail, 10);
    }
}

/// The lines to be evaluated are those of the input that a line feed closes: all but the last,
/// in their order, each as it was typed, or a note.
pub proof fn lines_are_committed_by_a_line_feed(b: Seq<u8>, i: int)
    requires
        0 <= i < calc_lines(b, 0).len(),
    ensures
        calc_lines(b, 0).len() == parted(b, 10).len() - 1,
        calc_lines(b, 0)[i] matches CalcModel::Expression(e) ==> e == parted(b, 10)[i],
{
    assert(b.subrange(0, b.len() as int) =~= b);
    lemma_committed(b, 0);
}

/// A line is a note if and only if it is blank or the first of its characters that is no white
/// space is `#`: up to some `p` there is only white space, and there the line ends or says `#`.
pub proof fn notes_are_blank_or_marked(b: Seq<u8>, from: int, end: int)
    requires
        boundary(b, from),
        boundary(b, end),
        from <= end,
    ensures
        calc_line(b, from, end) is Note <==> exists|p: int|
            {
                &&& from <= p <= end
                &&& #[trigger] boundary(b, p)
                &&& p == end || b[p] == 35 && !white(char_at(b, p))
                &&& forall|q: int|
                    from <= q < p && #[trigger] boundary(b, q) ==> white(char_at(b, q))
            },
        calc_line(b, from, end) is Expression ==> calc_line(b, from, end)->0 == b.subrange(
            from,
            end,
        ),
{
    lemma_first_solid_place(b, from, end);
    let at = first_solid(b, from, end);
    if exists|p: int|
        {
            &&& from <= p <= end
            &&& #[trigger] boundary(b, p)
            &&& p == end || b[p] == 35 && !white(char_at(b, p))
            &&& forall|q: int|
                from <= q < p && #[trigger] boundary(b, q) ==> white(char_at(b, q))
        } {
        let p = choose|p: int|
            {
                &&& from <= p <= end
                &&& #[trigger] boundary(b, p)
                &&& p == end || b[p] == 35 && !white(char_at(b, p))
                &&& forall|q: int|
                    from <= q < p && #[trigger] boundary(b, q) ==> white(char_at(b, q))
            };
        if at < p {
            assert(boundary(b, at));
        } else if at > p {
            assert(boundary(b, p));
        }
    }
    if calc_line(b, from, end) is Note {
        assert(boundary(b, at));
    }
}

pub proof fn lemma_first_solid_place(b: Seq<u8>, p: int, end: int)
    requires
        boundary(b, p),
        boundary(b, end),
        p <= end,
    ensures
        p <= first_solid(b, p, end) <= end,
        boundary(b, first_solid(b, p, end)),
        first_solid(b, p, end) < end ==> !white(char_at(b, first_solid(b, p, end))),
        forall|q: int|
            p <= q < first_solid(b, p, end) && #[trigger] boundary(b, q) ==> white(char_at(b, q)),
    decreases end - p,
{
    lemma_next_boundary(b, p);
    lemma_no_boundary_between(b, p);
    if p < end {
        let n = next_boundary(b, p);
        if n > end {
            assert(!boundary(b, end));
        }
        if white(char_at(b, p)) {
            lemma_first_solid_place(b, n, end);
        }
    }
}

} // verus!
