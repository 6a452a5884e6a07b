use kept::cell::poppop::{committed_lines, compute_poppop_output, take_first_line, Answer, CalcLine, PopPopCell};

const NOW: u64 = 1_000;

fn answer(s: &str) -> Answer {
    Ok(s.to_string())
}

fn output(input: &str, answers: Vec<Answer>) -> (Vec<String>, Vec<(usize, String)>) {
    let lines = committed_lines(input);
    let asked = lines.iter().filter(|l| matches!(l, CalcLine::Expression(_))).count();
    assert_eq!(asked, answers.len());
    compute_poppop_output(&lines, &answers)
}

fn expressions(input: &str) -> Vec<String> {
    committed_lines(input)
        .into_iter()
        .filter_map(|l| match l {
            CalcLine::Expression(s) => Some(s),
            CalcLine::Note => None,
        })
        .collect()
}

#[test]
fn poppop_evaluates_committed_lines() {
    assert_eq!(expressions("2 + 3\nx"), vec!["2 + 3"]);
    let (out, errs) = output("2 + 3\nx", vec![answer("5")]);
    assert_eq!(out, vec!["5".to_string()]);
    assert!(errs.is_empty());
}

#[test]
fn poppop_engine_state_threads_across_lines() {
    assert_eq!(expressions("x = 4\nx * 2\n"), vec!["x = 4", "x * 2"]);
    let (out, errs) = output("x = 4\nx * 2\n", vec![answer("4"), answer("8")]);
    assert_eq!(out.len(), 2);
    assert_eq!(out[0], "4");
    assert_eq!(out[1], "8");
    assert!(errs.is_empty());
}

#[test]
fn poppop_comments_are_skipped_and_not_evaluated() {
    let input = "# rent calc\nx = 1200\nx * 12\n";
    assert_eq!(expressions(input), vec!["x = 1200", "x * 12"]);
    let (out, errs) = output(input, vec![answer("1200"), answer("14400")]);
    assert_eq!(out.len(), 3);
    assert_eq!(out[0], "");
    assert_eq!(out[1], "1200");
    assert_eq!(out[2], "14400");
    assert!(errs.is_empty());
}

#[test]
fn poppop_blank_and_error_lines_are_empty() {
    let failed: Answer = Err("expected a term".to_string());
    let (out, errs) = output("\n1 +\n3 + 4\n", vec![failed, answer("7")]);
    assert_eq!(out, vec![String::new(), String::new(), "7".to_string()]);
    assert_eq!(errs.len(), 1);
    assert_eq!(errs[0].0, 1);
    assert!(!errs[0].1.is_empty(), "error message is non-empty");
}

#[test]
fn poppop_undefined_variable_surfaces_as_error() {
    let failed: Answer = Err("undefined variable: y".to_string());
    let (out, errs) = output("y\n", vec![failed]);
    assert_eq!(out, vec![String::new()]);
    assert_eq!(errs.len(), 1);
    assert_eq!(errs[0].0, 0);
    assert!(
        errs[0].1.contains('y'),
        "error message should mention the variable: {:?}",
        errs[0].1
    );
}

#[test]
fn poppop_error_message_is_single_line() {
    let failed: Answer = Err(" --> 1:4\n  |\n1 | 1 +\n  |    ^---".to_string());
    let (_out, errs) = output("1 +\n", vec![failed]);
    assert_eq!(errs.len(), 1);
    assert!(
        !errs[0].1.contains('\n'),
        "error message must not contain newlines: {:?}",
        errs[0].1
    );
}

#[test]
fn first_lines_are_taken() {
    assert_eq!(take_first_line("one\ntwo"), "one");
    assert_eq!(take_first_line("one"), "one");
    assert_eq!(take_first_line(""), "");
}

#[test]
fn calculators_keep_their_answers_until_the_input_changes() {
    let mut p = PopPopCell::new();
    p.textbox_mut().replace_text("1 + 1\n".to_string(), NOW);
    assert!(p.is_stale());
    p.set_answers(&vec![answer("2")], NOW);
    assert!(!p.is_stale());
    assert_eq!(p.output().text(), "2");
    p.textbox_mut().set_caret_at(0);
    p.textbox_mut().insert_text("3 + ", NOW);
    assert!(p.is_stale());
}

#[test]
fn no_line_and_one_empty_line_are_told_apart() {
    let (out, errs) = output("1 + 1", vec![]);
    assert!(out.is_empty());
    assert!(errs.is_empty());
    let (out, errs) = output("\n", vec![]);
    assert_eq!(out, vec![String::new()]);
    assert!(errs.is_empty());
}
