use parinfer_rust::analyzer::{find_follower, find_trail, head, Follower, HeadKind, Trail};
use parinfer_rust::lexer::{scan_line, LexMode, Lexeme};
use parinfer_rust::residency::{initialize, LoaderAction, LoaderEvent, Residency};
use parinfer_rust::syntax::{classify, closer, CharClass, DelimKind, Syntax};
use parinfer_rust::text::{join, split};
use parinfer_rust::tracker::{Frame, Tracker};
use parinfer_rust::error::ErrorKind;

fn letters(s: &str) -> Vec<char> {
    s.chars().collect()
}

#[test]
fn initialize_walks_from_fresh_to_resident() {
    let (s, a) = initialize(Residency::Fresh, LoaderEvent::Begin);
    assert_eq!((s, a), (Residency::Locating, LoaderAction::Locate));
    let (s, a) = initialize(s, LoaderEvent::PathFound);
    assert_eq!((s, a), (Residency::Promoting, LoaderAction::Promote));
    let (s, a) = initialize(s, LoaderEvent::NotOpened);
    assert_eq!((s, a), (Residency::Loading, LoaderAction::Load));
    let (s, a) = initialize(s, LoaderEvent::Opened);
    assert_eq!((s, a), (Residency::Resident, LoaderAction::Proceed));
}

#[test]
fn initialize_is_idempotent_once_resident() {
    for event in [
        LoaderEvent::Begin,
        LoaderEvent::PathFound,
        LoaderEvent::PathMissing,
        LoaderEvent::Opened,
        LoaderEvent::NotOpened,
    ] {
        assert_eq!(
            initialize(Residency::Resident, event),
            (Residency::Resident, LoaderAction::Proceed)
        );
    }
}

#[test]
fn initialize_gives_up_when_the_loader_does() {
    assert_eq!(
        initialize(Residency::Locating, LoaderEvent::PathMissing),
        (Residency::Failed, LoaderAction::AbortNoPath)
    );
    assert_eq!(
        initialize(Residency::Loading, LoaderEvent::NotOpened),
        (Residency::Failed, LoaderAction::AbortNoReference)
    );
    assert_eq!(
        initialize(Residency::Promoting, LoaderEvent::Opened),
        (Residency::Resident, LoaderAction::Proceed)
    );
    assert_eq!(
        initialize(Residency::Failed, LoaderEvent::Begin),
        (Residency::Failed, LoaderAction::AbortNoReference)
    );
}

#[test]
fn split_and_join_undo_each_other() {
    let lines = split(&letters("a\nbc\n\nd\r\n"));
    assert_eq!(
        lines,
        vec![letters("a"), letters("bc"), letters(""), letters("d\r"), letters("")]
    );
    assert_eq!(join(&lines), letters("a\nbc\n\nd\r\n"));
    assert_eq!(split(&letters("")), vec![letters("")]);
    assert_eq!(join(&vec![letters("x")]), letters("x"));
}

#[test]
fn characters_are_classified() {
    let lisp = Syntax::lisp();
    assert_eq!(classify(' ', &lisp), CharClass::Whitespace);
    assert_eq!(classify('\t', &lisp), CharClass::Whitespace);
    assert_eq!(classify('\r', &lisp), CharClass::Whitespace);
    assert_eq!(classify('(', &lisp), CharClass::Open(DelimKind::Round));
    assert_eq!(classify(']', &lisp), CharClass::Close(DelimKind::Square));
    assert_eq!(classify('{', &lisp), CharClass::Open(DelimKind::Curly));
    assert_eq!(classify('"', &lisp), CharClass::Quote);
    assert_eq!(classify(';', &lisp), CharClass::Comment);
    assert_eq!(classify('\\', &lisp), CharClass::Escape);
    assert_eq!(classify('x', &lisp), CharClass::Ordinary);
    let odd = Syntax { comment_char: '(', quote_char: 'q', escape_char: 'q' };
    assert_eq!(classify('(', &odd), CharClass::Open(DelimKind::Round));
    assert_eq!(classify('q', &odd), CharClass::Unhandled);
    assert_eq!(closer(DelimKind::Round), ')');
    assert_eq!(closer(DelimKind::Square), ']');
    assert_eq!(closer(DelimKind::Curly), '}');
}

#[test]
fn a_line_is_scanned_in_its_context() {
    let lisp = Syntax::lisp();
    let scan = scan_line(&lisp, &letters("(a \"b)\" ; ("), LexMode::Code);
    assert_eq!(
        scan.lexemes,
        vec![
            Lexeme::Open(DelimKind::Round),
            Lexeme::Solid,
            Lexeme::Blank,
            Lexeme::Solid,
            Lexeme::Solid,
            Lexeme::Solid,
            Lexeme::Solid,
            Lexeme::Blank,
            Lexeme::Remark,
            Lexeme::Remark,
            Lexeme::Remark,
        ]
    );
    assert_eq!(scan.end, LexMode::Remark);
    assert_eq!(scan.quote, None);

    let scan = scan_line(&lisp, &letters("x\" ) \"y\\"), LexMode::Text);
    assert_eq!(scan.lexemes[2], Lexeme::Blank);
    assert_eq!(scan.lexemes[3], Lexeme::Close(DelimKind::Round));
    assert_eq!(scan.end, LexMode::Escaped);
    assert_eq!(scan.quote, Some(5));
}

#[test]
fn heads_and_followers() {
    let lisp = Syntax::lisp();
    assert_eq!(head(&lisp, &letters("   ")).kind, HeadKind::Blank);
    assert_eq!(head(&lisp, &letters("  ; x")).kind, HeadKind::Comment);
    assert_eq!(head(&lisp, &letters("  ) x")).kind, HeadKind::Closer);
    assert_eq!(head(&lisp, &letters(" \t x")).kind, HeadKind::Code);
    assert_eq!(head(&lisp, &letters(" \t x")).x, 3);
    let lines = vec![letters("(a"), letters(""), letters(" ; c"), letters("    b"), letters(")")];
    assert_eq!(find_follower(&lisp, &lines, 1), Follower::Code(4));
    assert_eq!(find_follower(&lisp, &lines, 4), Follower::Closer);
    assert_eq!(find_follower(&lisp, &lines, 5), Follower::End);
}

#[test]
fn the_paren_trail_follows_the_last_other_code() {
    let lisp = Syntax::lisp();
    let scan = scan_line(&lisp, &letters("(a) b ) ] ; c"), LexMode::Code);
    assert_eq!(find_trail(&scan.lexemes), Trail { anchor: 5, end: 9 });
    let scan = scan_line(&lisp, &letters("  ) )  "), LexMode::Code);
    assert_eq!(find_trail(&scan.lexemes), Trail { anchor: 5, end: 5 });
    let scan = scan_line(&lisp, &letters("  ; )"), LexMode::Code);
    assert_eq!(find_trail(&scan.lexemes), Trail { anchor: 0, end: 0 });
}

#[test]
fn the_tracker_pops_only_a_frame_of_the_closers_family() {
    let mut tracker = Tracker::new();
    assert!(!tracker.is_in_string());
    assert_eq!(tracker.current_frame(), None);
    assert_eq!(tracker.pop_frame(DelimKind::Round), Err(ErrorKind::UnmatchedCloseDelimiter));
    let frame = Frame { kind: DelimKind::Square, line: 1, x: 2, indent: 3 };
    tracker.push_frame(frame);
    assert_eq!(tracker.current_frame(), Some(frame));
    assert_eq!(tracker.pop_frame(DelimKind::Round), Err(ErrorKind::UnmatchedCloseDelimiter));
    assert_eq!(tracker.current_frame(), Some(frame));
    assert_eq!(tracker.pop_frame(DelimKind::Square), Ok(frame));
    assert_eq!(tracker.current_frame(), None);
}
