use parinfer_rust::answer::{run_parinfer, Answer, Options, ParenTrail, Request, TabStop};
use parinfer_rust::changes::{remap_cursor, remap_x, Change, Position};
use parinfer_rust::error::{Error, ErrorKind};
use parinfer_rust::parens::Paren;
use parinfer_rust::run::Mode;
use parinfer_rust::syntax::{DelimKind, Syntax};
use parinfer_rust::tracker::is_balanced;

fn chars(s: &str) -> Vec<char> {
    s.chars().collect()
}

fn text_of(answer: &Answer) -> String {
    answer.text.iter().collect()
}

fn ask_with(mode: Mode, text: &str, options: Options) -> Answer {
    run_parinfer(&Request { mode, text: chars(text), options })
}

fn ask(mode: Mode, text: &str) -> Answer {
    ask_with(mode, text, Options::new())
}

fn forced() -> Options {
    let mut options = Options::new();
    options.force_balance = true;
    options
}

fn kind_of(answer: &Answer) -> ErrorKind {
    answer.error.expect("an error").kind
}

#[test]
fn force_balance_closes_what_is_open_at_the_end() {
    let answer = ask_with(Mode::Indent, "(a (b c", forced());
    assert!(answer.success);
    assert_eq!(text_of(&answer), "(a (b c))");
    assert_eq!(answer.error, None);
}

#[test]
fn without_force_balance_an_open_delimiter_at_the_end_fails() {
    let answer = ask(Mode::Indent, "(a (b c");
    assert!(!answer.success);
    assert_eq!(
        answer.error,
        Some(Error { kind: ErrorKind::UnclosedDelimiter, line: 0, x: 3 })
    );
    assert_eq!(text_of(&answer), "(a (b c");
    assert!(answer.changes.is_empty());
}

#[test]
fn force_balance_works_in_paren_mode_too() {
    let answer = ask_with(Mode::Paren, "(a\n(b", forced());
    assert!(answer.success);
    assert_eq!(text_of(&answer), "(a\n (b))");
}

#[test]
fn unclosed_quote_is_reported_where_it_opens() {
    let text = "(a)\n(b)\n(c)\n(defn foo \"abc\n  more";
    for mode in [Mode::Indent, Mode::Paren, Mode::Smart] {
        let answer = ask(mode, text);
        assert!(!answer.success);
        assert_eq!(
            answer.error,
            Some(Error { kind: ErrorKind::UnclosedQuote, line: 3, x: 10 })
        );
    }
}

#[test]
fn unclosed_quote_wins_over_force_balance() {
    let answer = ask_with(Mode::Indent, "(a \"b", forced());
    assert_eq!(kind_of(&answer), ErrorKind::UnclosedQuote);
}

#[test]
fn escape_at_the_end_of_the_buffer_leaves_the_quote_unclosed() {
    let answer = ask(Mode::Indent, "\"abc\\");
    assert_eq!(
        answer.error,
        Some(Error { kind: ErrorKind::UnclosedQuote, line: 0, x: 0 })
    );
}

#[test]
fn escape_does_not_reach_across_a_line_end() {
    let answer = ask(Mode::Indent, "(a \"b\\\n\" c)");
    assert!(answer.success);
    assert_eq!(text_of(&answer), "(a \"b\\\n\" c)");
}

#[test]
fn indent_and_paren_mode_are_duals_on_one_input() {
    let input = "(foo\n  bar)";
    let by_indent = ask(Mode::Indent, input);
    assert!(by_indent.success);
    assert_eq!(text_of(&by_indent), "(foo\n  bar)");
    assert!(by_indent.changes.is_empty());

    let by_paren = ask(Mode::Paren, input);
    assert!(by_paren.success);
    assert_eq!(text_of(&by_paren), "(foo\n bar)");
    assert_eq!(
        by_paren.changes,
        vec![Change { line: 1, start_x: 0, end_x: 2, old_text: chars("  "), new_text: chars(" ") }]
    );
}

#[test]
fn indent_mode_moves_closers_to_fit_the_indentation() {
    let answer = ask(Mode::Indent, "(foo\n  bar)\n  baz)");
    assert!(answer.success);
    assert_eq!(text_of(&answer), "(foo\n  bar\n  baz)");
    assert_eq!(
        answer.changes,
        vec![Change { line: 1, start_x: 5, end_x: 6, old_text: chars(")"), new_text: chars("") }]
    );
}

#[test]
fn indent_mode_inserts_missing_closers_before_a_dedent() {
    let answer = ask(Mode::Indent, "(foo (bar\n  baz\nqux");
    assert!(answer.success);
    assert_eq!(text_of(&answer), "(foo (bar)\n  baz)\nqux");
    assert_eq!(
        answer.changes,
        vec![
            Change { line: 0, start_x: 9, end_x: 9, old_text: chars(""), new_text: chars(")") },
            Change { line: 1, start_x: 5, end_x: 5, old_text: chars(""), new_text: chars(")") },
        ]
    );
}

#[test]
fn indent_mode_closes_mixed_families_innermost_first() {
    let answer = ask(Mode::Indent, "(a [b {c\nd");
    assert!(answer.success);
    assert_eq!(text_of(&answer), "(a [b {c}])\nd");
}

#[test]
fn indent_mode_follows_a_dedent() {
    let answer = ask(Mode::Indent, "(defn f [x]\n(g x))");
    assert!(answer.success);
    assert_eq!(text_of(&answer), "(defn f [x])\n(g x)");
}

#[test]
fn indent_mode_puts_closers_before_a_comment() {
    let answer = ask(Mode::Indent, "(foo ; note\nbar");
    assert!(answer.success);
    assert_eq!(text_of(&answer), "(foo) ; note\nbar");
}

#[test]
fn indent_mode_ignores_blank_and_comment_lines() {
    let answer = ask(Mode::Indent, "(foo\n\n; top\n  bar)\n");
    assert!(answer.success);
    assert_eq!(text_of(&answer), "(foo\n\n; top\n  bar)\n");
    assert!(answer.changes.is_empty());
}

#[test]
fn indent_mode_keeps_a_line_of_closers() {
    let answer = ask(Mode::Indent, "(foo\n  bar\n)\nbaz");
    assert!(answer.success);
    assert_eq!(text_of(&answer), "(foo\n  bar\n)\nbaz");
}

#[test]
fn indent_mode_never_changes_the_family_of_a_closer() {
    let answer = ask(Mode::Indent, "(foo]");
    assert_eq!(
        answer.error,
        Some(Error { kind: ErrorKind::UnmatchedCloseDelimiter, line: 0, x: 4 })
    );
}

#[test]
fn a_closer_amid_code_without_an_opener_fails() {
    for mode in [Mode::Indent, Mode::Paren, Mode::Smart] {
        let answer = ask(mode, "(a)) b");
        assert_eq!(
            answer.error,
            Some(Error { kind: ErrorKind::UnmatchedCloseDelimiter, line: 0, x: 3 })
        );
    }
}

#[test]
fn paren_mode_keeps_every_closer() {
    let answer = ask(Mode::Paren, "(a))");
    assert_eq!(
        answer.error,
        Some(Error { kind: ErrorKind::UnmatchedCloseDelimiter, line: 0, x: 3 })
    );
    let answer = ask(Mode::Indent, "(a))");
    assert!(answer.success);
    assert_eq!(text_of(&answer), "(a)");
}

#[test]
fn paren_mode_rejects_a_leading_closer_with_nothing_open() {
    let answer = ask(Mode::Paren, "(a)\n  ) b");
    assert_eq!(
        answer.error,
        Some(Error { kind: ErrorKind::LeadingCloseParen, line: 1, x: 2 })
    );
}

#[test]
fn paren_mode_indents_a_leading_closer_under_its_opener() {
    let answer = ask(Mode::Paren, "(a\n    )");
    assert!(answer.success);
    assert_eq!(text_of(&answer), "(a\n )");
}

#[test]
fn paren_mode_rewrites_indentation_from_the_open_delimiters() {
    let answer = ask(Mode::Paren, "(defn foo [x]\n(let [y 1\nz 2]\n(+ x y z)))");
    assert!(answer.success);
    assert_eq!(
        text_of(&answer),
        "(defn foo [x]\n (let [y 1\n       z 2]\n  (+ x y z)))"
    );
}

#[test]
fn paren_mode_puts_top_level_lines_at_column_zero() {
    let answer = ask(Mode::Paren, "   (a)\n\t(b)");
    assert!(answer.success);
    assert_eq!(text_of(&answer), "(a)\n(b)");
}

#[test]
fn paren_mode_leaves_strings_and_comments_alone() {
    let input = "(a \"x\n   y\" ; z (\n   ; only a comment\n\n b)";
    let answer = ask(Mode::Paren, input);
    assert!(answer.success);
    assert_eq!(text_of(&answer), "(a \"x\n   y\" ; z (\n   ; only a comment\n\n b)");
}

#[test]
fn delimiters_in_strings_and_comments_do_not_count() {
    let input = "(a \"(\" b) ; )))";
    for mode in [Mode::Indent, Mode::Paren, Mode::Smart] {
        let answer = ask(mode, input);
        assert!(answer.success);
        assert_eq!(text_of(&answer), input);
    }
}

#[test]
fn an_escaped_quote_stays_inside_its_string() {
    let input = "(a \"\\\"(\" b)";
    let answer = ask(Mode::Indent, input);
    assert!(answer.success);
    assert_eq!(text_of(&answer), input);
}

#[test]
fn carriage_returns_stay_at_the_line_ends() {
    let answer = ask(Mode::Indent, "(foo\r\n  bar\r\nbaz\r\n");
    assert!(answer.success);
    assert_eq!(text_of(&answer), "(foo\r\n  bar)\r\nbaz\r\n");
    let answer = ask(Mode::Paren, "(foo\r\n   bar)\r\n");
    assert!(answer.success);
    assert_eq!(text_of(&answer), "(foo\r\n bar)\r\n");
}

#[test]
fn a_character_with_two_roles_is_unhandled() {
    let mut options = Options::new();
    options.syntax = Syntax { comment_char: '#', quote_char: '#', escape_char: '\\' };
    let answer = ask_with(Mode::Indent, "(a #b)", options);
    assert_eq!(
        answer.error,
        Some(Error { kind: ErrorKind::UnhandledCharacter, line: 0, x: 3 })
    );
}

#[test]
fn the_syntax_can_be_chosen() {
    let mut options = Options::new();
    options.syntax = Syntax { comment_char: '#', quote_char: '\'', escape_char: '!' };
    let answer = ask_with(Mode::Indent, "(a '(!'' # )\n  b) ; c", options);
    assert!(answer.success);
    assert_eq!(text_of(&answer), "(a '(!'' # )\n  b) ; c");
}

#[test]
fn smart_mode_trusts_delimiters_before_the_cursor_and_indentation_from_it_on() {
    let mut options = Options::new();
    options.cursor = Some(Position { line: 2, x: 2 });
    let answer = ask_with(Mode::Smart, "(foo\n   (bar\n  baz))", options);
    assert!(answer.success);
    assert_eq!(text_of(&answer), "(foo\n (bar\n  baz))");
    assert_eq!(answer.cursor, Some(Position { line: 2, x: 2 }));

    let mut options = Options::new();
    options.cursor = Some(Position { line: 1, x: 2 });
    let answer = ask_with(Mode::Smart, "(foo\n  (bar\n  baz))", options);
    assert!(answer.success);
    assert_eq!(text_of(&answer), "(foo\n  (bar)\n  baz)");
}

#[test]
fn smart_mode_without_a_cursor_is_indent_mode() {
    let input = "(foo\n   (bar\n  baz))";
    assert_eq!(text_of(&ask(Mode::Smart, input)), text_of(&ask(Mode::Indent, input)));
}

#[test]
fn a_selection_extends_the_edited_zone_upwards() {
    let mut options = Options::new();
    options.cursor = Some(Position { line: 2, x: 0 });
    options.selection_start_line = Some(1);
    let answer = ask_with(Mode::Smart, "(foo\n   (bar\n  baz))", options);
    assert!(answer.success);
    assert_eq!(text_of(&answer), "(foo\n   (bar)\n  baz)");
}

#[test]
fn a_keystroke_on_a_delimiter_keeps_the_delimiters_of_the_cursor_line() {
    let mut options = Options::new();
    options.cursor = Some(Position { line: 1, x: 3 });
    options.changes = vec![Change {
        line: 1,
        start_x: 7,
        end_x: 7,
        old_text: chars(""),
        new_text: chars(")"),
    }];
    let answer = ask_with(Mode::Smart, "(foo\n   (bar)\n  baz)", options);
    assert!(answer.success);
    assert_eq!(text_of(&answer), "(foo\n (bar)\n  baz)");
}

#[test]
fn results_repeat() {
    let input = "(defn f [x]\n(g x))\n  (h";
    for mode in [Mode::Indent, Mode::Paren, Mode::Smart] {
        let first = ask_with(mode, input, forced());
        let second = ask_with(mode, input, forced());
        assert_eq!(first.success, second.success);
        assert_eq!(first.text, second.text);
        assert_eq!(first.changes, second.changes);
        assert_eq!(first.error, second.error);
        assert_eq!(first.cursor, second.cursor);
    }
}

#[test]
fn a_second_run_changes_nothing() {
    let inputs = [
        "(defn f [x]\n(g x))\n  (h",
        "(foo (bar\n  baz\nqux",
        "(a [b {c\n    d\n  e\nf",
        "(foo\n  bar\n    )\n  baz)",
        "(a\n)\n(b\n     c)",
    ];
    for input in inputs {
        for mode in [Mode::Indent, Mode::Paren] {
            let first = ask_with(mode, input, forced());
            if first.success {
                let again = ask_with(mode, &text_of(&first), forced());
                assert!(again.success);
                assert_eq!(again.text, first.text);
                assert!(again.changes.is_empty());
            }
        }
    }
}

#[test]
fn what_succeeds_is_balanced() {
    let inputs = ["(defn f [x]\n(g x))\n  (h", "(foo (bar\n  baz)))\nqux", "(a \"(\" ; )\n b"];
    for input in inputs {
        for mode in [Mode::Indent, Mode::Paren, Mode::Smart] {
            let answer = ask_with(mode, input, forced());
            if answer.success {
                assert!(is_balanced(&Syntax::lisp(), &answer.text));
            }
        }
    }
    assert!(!is_balanced(&Syntax::lisp(), &chars("(a")));
    assert!(!is_balanced(&Syntax::lisp(), &chars("a)")));
    assert!(!is_balanced(&Syntax::lisp(), &chars("(a]")));
    assert!(!is_balanced(&Syntax::lisp(), &chars("\"a")));
    assert!(is_balanced(&Syntax::lisp(), &chars("(a [b] {c \"]\"}) ; (")));
}

#[test]
fn the_cursor_follows_its_character() {
    let mut options = Options::new();
    options.cursor = Some(Position { line: 1, x: 6 });
    let answer = ask_with(Mode::Paren, "(foo\n    bar)", options);
    assert_eq!(text_of(&answer), "(foo\n bar)");
    assert_eq!(answer.cursor, Some(Position { line: 1, x: 3 }));

    let mut options = Options::new();
    options.cursor = Some(Position { line: 0, x: 4 });
    let answer = ask_with(Mode::Indent, "(foo\nbar", options);
    assert_eq!(text_of(&answer), "(foo)\nbar");
    assert_eq!(answer.cursor, Some(Position { line: 0, x: 4 }));
}

#[test]
fn the_cursor_is_first_moved_across_the_changes_of_the_request() {
    let mut options = Options::new();
    options.cursor = Some(Position { line: 0, x: 5 });
    options.changes = vec![
        Change { line: 0, start_x: 1, end_x: 1, old_text: chars(""), new_text: chars("ab") },
        Change { line: 1, start_x: 0, end_x: 1, old_text: chars("x"), new_text: chars("") },
    ];
    let answer = ask_with(Mode::Indent, "(abfoo)", options);
    assert!(answer.success);
    assert_eq!(answer.cursor, Some(Position { line: 0, x: 7 }));
}

#[test]
fn remapping_moves_a_column_behind_an_edit_only() {
    let insert = Change { line: 0, start_x: 2, end_x: 2, old_text: chars(""), new_text: chars("xyz") };
    assert_eq!(remap_x(5, &insert), 8);
    assert_eq!(remap_x(2, &insert), 2);
    assert_eq!(remap_x(1, &insert), 1);
    let delete = Change { line: 0, start_x: 2, end_x: 5, old_text: chars("abc"), new_text: chars("") };
    assert_eq!(remap_x(5, &delete), 2);
    assert_eq!(remap_x(9, &delete), 6);
    assert_eq!(remap_x(4, &delete), 2);
    let replace = Change { line: 0, start_x: 2, end_x: 5, old_text: chars("abc"), new_text: chars("uvwxy") };
    assert_eq!(remap_x(4, &replace), 4);
    assert_eq!(remap_x(5, &replace), 7);
    assert_eq!(remap_x(usize::MAX, &insert), usize::MAX);
    let elsewhere = remap_cursor(Position { line: 3, x: 9 }, &vec![insert, delete, replace]);
    assert_eq!(elsewhere, Position { line: 3, x: 9 });
}

#[test]
fn remapping_applies_the_last_change_first() {
    let changes = vec![
        Change { line: 0, start_x: 0, end_x: 4, old_text: chars("    "), new_text: chars(" ") },
        Change { line: 0, start_x: 8, end_x: 8, old_text: chars(""), new_text: chars("))") },
    ];
    assert_eq!(remap_cursor(Position { line: 0, x: 9 }, &changes), Position { line: 0, x: 8 });
    assert_eq!(remap_cursor(Position { line: 0, x: 6 }, &changes), Position { line: 0, x: 3 });
}

#[test]
fn a_partial_result_holds_the_text_before_the_failure() {
    let mut options = Options::new();
    options.partial_result = true;
    let answer = ask_with(Mode::Paren, "(a\n   b)\n(c\n     \"d\n", options);
    assert!(!answer.success);
    assert_eq!(kind_of(&answer), ErrorKind::UnclosedQuote);
    assert_eq!(text_of(&answer), "(a\n b)\n(c\n ");
    assert!(answer.changes.is_empty());

    let mut options = Options::new();
    options.partial_result = true;
    let answer = ask_with(Mode::Indent, "(a\nb\n(c)) d\ne", options);
    assert_eq!(
        answer.error,
        Some(Error { kind: ErrorKind::UnmatchedCloseDelimiter, line: 2, x: 3 })
    );
    assert_eq!(text_of(&answer), "(a)\nb\n(c)");

    let mut options = Options::new();
    options.partial_result = true;
    let answer = ask_with(Mode::Indent, "(a\n  (b c", options);
    assert_eq!(
        answer.error,
        Some(Error { kind: ErrorKind::UnclosedDelimiter, line: 1, x: 2 })
    );
    assert_eq!(text_of(&answer), "(a\n  ");
}

#[test]
fn tab_stops_and_paren_trails_come_on_request() {
    let answer = ask(Mode::Paren, "(a\n   (b))");
    assert!(answer.tab_stops.is_empty());
    assert!(answer.paren_trails.is_empty());

    let mut options = Options::new();
    options.return_parens = true;
    let answer = ask_with(Mode::Paren, "(a\n   (b))\n\n  ; c", options);
    assert_eq!(text_of(&answer), "(a\n (b))\n\n  ; c");
    assert_eq!(
        answer.tab_stops,
        vec![
            TabStop { line: 0, x: 0, previous_x: 0 },
            TabStop { line: 1, x: 1, previous_x: 3 },
            TabStop { line: 2, x: 0, previous_x: 0 },
            TabStop { line: 3, x: 2, previous_x: 2 },
        ]
    );
    assert_eq!(answer.tab_stops[1].delta(), -2);
    assert_eq!(answer.paren_trails, vec![ParenTrail { line: 1, start_x: 3, end_x: 5 }]);

    let mut options = Options::new();
    options.return_parens = true;
    let answer = ask_with(Mode::Indent, "(a (b\nc) )", options);
    assert_eq!(text_of(&answer), "(a (b))\nc");
    assert_eq!(
        answer.paren_trails,
        vec![ParenTrail { line: 0, start_x: 5, end_x: 7 }]
    );
}

#[test]
fn an_empty_buffer_is_fine() {
    for mode in [Mode::Indent, Mode::Paren, Mode::Smart] {
        let answer = ask(mode, "");
        assert!(answer.success);
        assert_eq!(text_of(&answer), "");
        assert!(answer.changes.is_empty());
    }
}

#[test]
fn error_kinds_have_names_and_messages() {
    assert_eq!(ErrorKind::UnclosedQuote.name(), "unclosed-quote");
    assert_eq!(ErrorKind::UnclosedDelimiter.name(), "unclosed-delimiter");
    assert_eq!(ErrorKind::UnmatchedCloseDelimiter.name(), "unmatched-close-delimiter");
    assert_eq!(ErrorKind::LeadingCloseParen.name(), "leading-close-paren");
    assert_eq!(ErrorKind::UnhandledCharacter.name(), "unhandled-character");
    assert!(!ErrorKind::UnclosedQuote.message().is_empty());
}

fn apply(input: &str, changes: &[Change]) -> String {
    let mut lines: Vec<Vec<char>> = input.split('\n').map(chars).collect();
    for change in changes.iter().rev() {
        let line = &mut lines[change.line];
        assert_eq!(line[change.start_x..change.end_x], change.old_text[..]);
        line.splice(change.start_x..change.end_x, change.new_text.iter().cloned());
    }
    let joined: Vec<String> = lines.iter().map(|l| l.iter().collect()).collect();
    joined.join("\n")
}

#[test]
fn the_changes_lead_from_the_input_to_the_output() {
    let inputs = [
        "(defn f [x]\n(g x))\n  (h",
        "(foo (bar\n  baz\nqux",
        "   (a [b {c\n d ) )\n       e\n  f",
        "(a\n      \"x\n  y\" (b\n c",
        "(a ) ) ; c\n   b",
    ];
    for input in inputs {
        for mode in [Mode::Indent, Mode::Paren, Mode::Smart] {
            let answer = ask_with(mode, input, forced());
            if answer.success {
                assert_eq!(apply(input, &answer.changes), text_of(&answer));
            }
        }
    }
    let answer = ask_with(Mode::Paren, "   (a [b {c\n d", forced());
    assert_eq!(text_of(&answer), "(a [b {c\n       d}])");
    assert_eq!(
        answer.changes,
        vec![
            Change { line: 0, start_x: 0, end_x: 3, old_text: chars("   "), new_text: chars("") },
            Change { line: 1, start_x: 0, end_x: 1, old_text: chars(" "), new_text: chars("       ") },
            Change { line: 1, start_x: 2, end_x: 2, old_text: chars(""), new_text: chars("}])") },
        ]
    );
}

#[test]
fn indent_mode_adds_to_a_line_of_closers() {
    let answer = ask(Mode::Indent, "(a (b\n  )\nc");
    assert!(answer.success);
    assert_eq!(text_of(&answer), "(a (b\n  ))\nc");
}

#[test]
fn indent_mode_drops_closers_that_close_nothing() {
    let answer = ask(Mode::Indent, "(a\nb))) ; c");
    assert!(answer.success);
    assert_eq!(text_of(&answer), "(a)\nb ; c");
}

#[test]
fn a_character_with_two_roles_does_no_harm_in_a_comment() {
    let mut options = Options::new();
    options.syntax = Syntax { comment_char: ';', quote_char: '#', escape_char: '#' };
    let answer = ask_with(Mode::Paren, "(a) ; #b", options);
    assert!(answer.success);
    let mut options = Options::new();
    options.syntax = Syntax { comment_char: ';', quote_char: '#', escape_char: '#' };
    let answer = ask_with(Mode::Paren, "(a) #b", options);
    assert_eq!(
        answer.error,
        Some(Error { kind: ErrorKind::UnhandledCharacter, line: 0, x: 4 })
    );
}

#[test]
fn the_cursor_stays_before_closers_that_are_put_where_it_stands() {
    let mut options = Options::new();
    options.cursor = Some(Position { line: 0, x: 7 });
    let answer = ask_with(Mode::Indent, "(a (b c\nd", options);
    assert_eq!(text_of(&answer), "(a (b c))\nd");
    assert_eq!(answer.cursor, Some(Position { line: 0, x: 7 }));
}

#[test]
fn the_cursor_moves_left_with_what_follows_removed_closers() {
    let mut options = Options::new();
    options.cursor = Some(Position { line: 0, x: 15 });
    let answer = ask_with(Mode::Indent, "(a (b c) ))) ; e\nd", options);
    assert_eq!(text_of(&answer), "(a (b c) ) ; e\nd");
    assert_eq!(answer.cursor, Some(Position { line: 0, x: 13 }));
    let mut options = Options::new();
    options.cursor = Some(Position { line: 0, x: 8 });
    let answer = ask_with(Mode::Indent, "(a (b c) ))) ; e\nd", options);
    assert_eq!(answer.cursor, Some(Position { line: 0, x: 8 }));
}

#[test]
fn the_pairs_of_delimiters_come_on_request() {
    assert!(ask(Mode::Indent, "(a [b]\n c)").parens.is_empty());
    let mut options = Options::new();
    options.return_parens = true;
    let answer = ask_with(Mode::Indent, "(a [b \"]\"\n    {c} ; )\nd", options);
    assert_eq!(text_of(&answer), "(a [b \"]\"\n    {c}]) ; )\nd");
    assert_eq!(
        answer.parens,
        vec![
            Paren { kind: DelimKind::Curly, line: 1, x: 4, close_line: 1, close_x: 6 },
            Paren { kind: DelimKind::Square, line: 0, x: 3, close_line: 1, close_x: 7 },
            Paren { kind: DelimKind::Round, line: 0, x: 0, close_line: 1, close_x: 8 },
        ]
    );
}

#[test]
fn every_line_keeps_what_its_rule_trusts() {
    let input = "(defn f [x]\n      (g x\n  (h y)))\n(i";
    let by_indent = ask_with(Mode::Indent, input, forced());
    assert_eq!(text_of(&by_indent), "(defn f [x]\n      (g x)\n  (h y))\n(i)");
    let by_paren = ask(Mode::Paren, "(defn f [x]\n      (g x\n  (h y)))\n(i)");
    assert_eq!(text_of(&by_paren), "(defn f [x]\n (g x\n  (h y)))\n(i)");
}

#[test]
fn the_changes_of_an_answer_do_not_touch() {
    let answer = ask_with(Mode::Smart, "  (a\n (b\n    c\n d", forced());
    assert!(answer.success);
    for pair in answer.changes.windows(2) {
        assert!(
            pair[0].line < pair[1].line
                || (pair[0].line == pair[1].line && pair[0].end_x < pair[1].start_x)
        );
    }
    for change in answer.changes.iter() {
        assert_ne!(change.old_text, change.new_text);
        assert_eq!(change.old_text.len(), change.end_x - change.start_x);
    }
}

fn indentation(line: &str) -> usize {
    line.chars().take_while(|c| *c == ' ' || *c == '\t' || *c == '\r').count()
}

fn exercise(input: &str) {
    for force in [false, true] {
        for mode in [Mode::Indent, Mode::Paren, Mode::Smart] {
            let mut options = Options::new();
            options.force_balance = force;
            options.cursor = Some(Position { line: 1, x: 0 });
            let answer = ask_with(mode, input, options);
            if !answer.success {
                assert!(answer.error.is_some());
                assert_eq!(text_of(&answer), input);
                continue;
            }
            let output = text_of(&answer);
            assert!(is_balanced(&Syntax::lisp(), &answer.text), "{:?} {:?}", mode, input);
            assert_eq!(apply(input, &answer.changes), output, "{:?} {:?}", mode, input);
            let before: Vec<&str> = input.split('\n').collect();
            let after: Vec<&str> = output.split('\n').collect();
            assert_eq!(before.len(), after.len());
            for k in 0..before.len() {
                let paren_rule = mode == Mode::Paren || (mode == Mode::Smart && k < 1);
                if paren_rule {
                    if !force {
                        assert_eq!(
                            after[k][indentation(after[k])..],
                            before[k][indentation(before[k])..],
                            "{:?} {:?}",
                            mode,
                            input
                        );
                    }
                } else {
                    assert_eq!(indentation(after[k]), indentation(before[k]));
                }
            }
            if mode != Mode::Smart {
                let mut options = Options::new();
                options.force_balance = force;
                let again = ask_with(mode, &output, options);
                assert!(again.success, "{:?} {:?}", mode, input);
                assert_eq!(text_of(&again), output, "{:?} {:?}", mode, input);
                assert!(again.changes.is_empty());
            }
        }
    }
}

#[test]
fn the_laws_hold_of_every_short_buffer() {
    let alphabet = ['(', ')', '[', ']', ' ', 'a', '\n', '"', ';'];
    let mut inputs: Vec<String> = vec![String::new()];
    let mut last: Vec<String> = vec![String::new()];
    for _ in 0..5 {
        let mut next = Vec::new();
        for prefix in &last {
            for c in alphabet {
                let mut longer = prefix.clone();
                longer.push(c);
                next.push(longer);
            }
        }
        inputs.extend(next.iter().cloned());
        last = next;
    }
    assert_eq!(inputs.len(), 1 + 9 + 81 + 729 + 6561 + 59049);
    for input in &inputs {
        exercise(input);
    }
}

#[test]
fn the_laws_hold_of_some_longer_buffers() {
    let parts = ["(", ")", "[", "]", "{", "}", " ", "  ", "a", "\n", "\n ", "\n   ", "\"", ";", "\\"];
    let mut seed: u64 = 0x2545_f491_4f6c_dd1d;
    for _ in 0..3000 {
        let mut input = String::new();
        let mut length = 0;
        seed = seed.wrapping_mul(6364136223846793005).wrapping_add(1442695040888963407);
        let wanted = 4 + (seed >> 59) as usize;
        while length < wanted {
            seed = seed.wrapping_mul(6364136223846793005).wrapping_add(1442695040888963407);
            input.push_str(parts[((seed >> 33) % parts.len() as u64) as usize]);
            length += 1;
        }
        exercise(&input);
    }
}
