use remote_tools::open::{after_file, is_misused, name_to_send, open, usage, After, Seen, Step, MAX_FILE};

const NOT_CONNECTED: &str = "no rclaude connection is open to the machine you ssh in from";

fn args(s: &[&str]) -> Vec<Vec<u8>> {
    s.iter().map(|a| a.as_bytes().to_vec()).collect()
}

fn reason(step: Step) -> String {
    match step {
        Step::Refuse { reason } => reason,
        other => panic!("{other:?}"),
    }
}

fn reply(path: &[u8], line: &str) -> Step {
    open(path, &Seen::Reply { line: line.to_string() })
}

#[test]
fn misuse() {
    assert!(is_misused(&Vec::new()));
    assert!(is_misused(&args(&["a", "-b"])));
    assert!(is_misused(&args(&["-"])));
    assert!(!is_misused(&args(&["a", "b-", ""])));
    assert_eq!(usage("open"), "usage: open <file>...  (opens each file on the machine you ssh in from)");
}

#[test]
fn urls_are_refused() {
    for url in ["http://a", "x://", "mailto:me", "a mailto://"] {
        assert_eq!(
            reason(open(url.as_bytes(), &Seen::Start)),
            "only files are opened on the other machine, not URLs"
        );
    }
    for file in ["a.txt", ":/", "xmailto:me", "a:/b", ""] {
        assert!(matches!(open(file.as_bytes(), &Seen::Start), Step::Look));
    }
}

#[test]
fn only_files_up_to_a_size() {
    let look = |is_file: bool, len: u64| open(b"/a", &Seen::Meta { is_file, len });
    assert_eq!(reason(look(false, 0)), "not a file");
    assert_eq!(reason(look(true, MAX_FILE + 1)), "larger than 100 MB");
    assert!(matches!(look(true, MAX_FILE), Step::Read));
    assert_eq!(MAX_FILE, 100 << 20);
}

#[test]
fn the_request_names_the_file() {
    match open(b"/d/a b\nc.txt", &Seen::Body { size: 12 }) {
        Step::Send { verb } => assert_eq!(verb, "open 12 a b_c.txt"),
        other => panic!("{other:?}"),
    }
    assert_eq!(name_to_send(b"/d/a\r\n"), "a__");
    assert_eq!(name_to_send(b"/d/\xff"), "\u{fffd}");
    assert_eq!(name_to_send(b"/"), "");
}

#[test]
fn what_the_other_machine_replies() {
    match reply(b"/d/a.txt", "ok a (1).txt \r\n") {
        Step::Opened { note } => assert_eq!(note, "Opened a.txt on the other machine, saved as a (1).txt"),
        other => panic!("{other:?}"),
    }
    assert_eq!(reason(reply(b"/a", "error not a document\n")), "not a document");
    for none in ["", "ok", "okay x", "error\n", " ok x", "yes x"] {
        assert_eq!(
            reason(reply(b"/a", none)),
            "the other machine did not answer; is rclaude still connected?"
        );
    }
}

#[test]
fn failures_on_the_way() {
    assert_eq!(reason(open(b"/a", &Seen::NotConnected)), NOT_CONNECTED);
    assert_eq!(reason(open(b"/a", &Seen::Failed { reason: "gone".to_string() })), "gone");
}

#[test]
fn a_refusal_makes_the_status() {
    match after_file("open", b"/a", Some("gone"), 0) {
        After::Next { status, complaint } => {
            assert_eq!(status, 1);
            assert_eq!(complaint.as_deref(), Some("open: /a: gone"));
        }
        other => panic!("{other:?}"),
    }
    for before in [0, 1] {
        match after_file("open", b"/a", None, before) {
            After::Next { status, complaint } => assert_eq!((status, complaint), (before, None)),
            other => panic!("{other:?}"),
        }
    }
}

#[test]
fn only_xdg_open_goes_to_the_real_one() {
    assert!(matches!(after_file("xdg-open", b"/a", Some(NOT_CONNECTED), 1), After::RunReal));
    assert!(matches!(after_file("open", b"/a", Some(NOT_CONNECTED), 0), After::Next { status: 1, .. }));
    assert!(matches!(after_file("xdg-open", b"/a", Some("gone"), 0), After::Next { status: 1, .. }));
}
