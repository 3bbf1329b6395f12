use pdr::recent::{format_recent, parse_recent, push_recent};
use pdr::worker::{is_current, WorkerAction, WorkerCommand, WorkerState};

#[test]
fn saved_list_has_one_path_per_line() {
    let list = vec!["/a.pdf".to_string(), "C:\\b c.pdf".to_string()];
    assert_eq!(format_recent(&list), "/a.pdf\nC:\\b c.pdf");
    assert_eq!(format_recent(&Vec::new()), "");
}

#[test]
fn reading_skips_blank_lines_and_line_ends() {
    let got = parse_recent("a\r\n\n  \r\nb\nc\r");
    assert_eq!(got, vec!["a", "b", "c\r"]);
    assert_eq!(parse_recent(""), Vec::<String>::new());
    assert_eq!(parse_recent("\n\n"), Vec::<String>::new());
    assert_eq!(parse_recent(" x \n"), vec![" x "]);
    assert_eq!(parse_recent("パス/ファイル.pdf\n"), vec!["パス/ファイル.pdf"]);
}

#[test]
fn saved_list_reads_back_unchanged() {
    let mut list: Vec<String> = Vec::new();
    for p in ["/one.pdf", "/two words.pdf", "/三.pdf", "/one.pdf"] {
        push_recent(&mut list, p);
    }
    let body = format_recent(&list);
    assert_eq!(parse_recent(&body), list);
}

#[test]
fn render_requests_follow_the_open_document() {
    let mut w = WorkerState::new();
    assert_eq!(w.step(WorkerCommand::Render { doc_gen: 0 }), WorkerAction::Skip);
    assert_eq!(w.step(WorkerCommand::Open { doc_gen: 1 }), WorkerAction::Load);
    assert_eq!(w.step(WorkerCommand::Render { doc_gen: 1 }), WorkerAction::Skip);
    w.finish_load(true);
    assert_eq!(w.step(WorkerCommand::Render { doc_gen: 1 }), WorkerAction::Render);
    assert_eq!(w.step(WorkerCommand::Open { doc_gen: 2 }), WorkerAction::Load);
    w.finish_load(true);
    assert_eq!(w.step(WorkerCommand::Render { doc_gen: 1 }), WorkerAction::Skip);
    w.finish_load(false);
    assert_eq!(w.step(WorkerCommand::Render { doc_gen: 2 }), WorkerAction::Skip);
    assert!(is_current(3, 3));
    assert!(!is_current(3, 2));
}
