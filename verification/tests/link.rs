use remote_tools::link::{
    candidates, cannot_run, find_real, is_this_program, legacy_link, links, request, run_real, try_link, Candidate,
    Event, Link, LinkFile, Request, Stage,
};

fn file(name: &str, content: &str, modified: i128) -> LinkFile {
    LinkFile {
        name: name.as_bytes().to_vec(),
        path: format!("/links/{name}").into_bytes(),
        content: Some(content.to_string()),
        modified: Some(modified),
    }
}

fn link(port: u16, hello: bool) -> Link {
    Link { port, token: format!("t{port}"), file: Some(format!("/links/{port}").into_bytes()), hello }
}

fn line(s: &str) -> Event {
    Event::Line(s.to_string())
}

/// The request after events, one after another.
fn after(links: Vec<Link>, events: &[Event]) -> Request {
    events.iter().fold(request(links), |r, e| r.next(e))
}

#[test]
fn newest_links_come_first() {
    let files = vec![
        file("1", "a", 10),
        file("2", " b \n", 30),
        file("3", "c", 10),
        file("4", "d", -5),
        file("5", "e", 30),
    ];
    let found = links(&files, Some("9 old"));
    let ports: Vec<u16> = found.iter().map(|l| l.port).collect();
    assert_eq!(ports, [2, 5, 1, 3, 4, 9]);
    assert_eq!(found[0].token, "b");
    assert_eq!(found[0].file, Some(b"/links/2".to_vec()));
    assert!(found[0].hello);
    assert!(!found[5].hello);
    assert_eq!(found[5].file, None);
}

#[test]
fn unusable_link_files_are_left_out() {
    let mut unread = file("6", "x", 1);
    unread.content = None;
    let mut undated = file("7", "x", 1);
    undated.modified = None;
    let mut named = file("8", "x", 1);
    named.name = vec![0xff];
    let files = vec![
        file("65536", "x", 1),
        file("port", "x", 1),
        file("", "x", 1),
        file("-1", "x", 1),
        file("1", " \n", 1),
        unread,
        undated,
        named,
    ];
    assert!(links(&files, None).is_empty());
    assert!(links(&Vec::new(), Some("nothing here")).is_empty());
}

#[test]
fn the_link_of_old_launchers() {
    let l = legacy_link("  4000 tok rest").unwrap();
    assert_eq!((l.port, l.token.as_str(), l.file, l.hello), (4000, "tok", None, false));
    assert!(legacy_link("4000").is_none());
    assert!(legacy_link("x tok").is_none());
}

#[test]
fn the_stages_of_a_link() {
    let l = link(1, true);
    assert_eq!(try_link(&l, Stage::Connect, &Event::Succeeded), Some(Stage::SendLine));
    assert_eq!(try_link(&l, Stage::SendLine, &Event::Succeeded), Some(Stage::ReadHello));
    assert_eq!(try_link(&link(1, false), Stage::SendLine, &Event::Succeeded), Some(Stage::SendBody));
    assert_eq!(try_link(&l, Stage::ReadHello, &line("rclaude 1\r\n")), Some(Stage::SendBody));
    assert_eq!(try_link(&l, Stage::ReadHello, &line("rclaude 2\n")), None);
    assert_eq!(try_link(&l, Stage::ReadHello, &line(" rclaude 1")), None);
    assert_eq!(try_link(&l, Stage::ReadHello, &line("")), None);
    assert_eq!(try_link(&l, Stage::ReadHello, &Event::Failed), None);
    assert_eq!(try_link(&l, Stage::SendBody, &Event::Succeeded), Some(Stage::Done));
    assert_eq!(try_link(&l, Stage::SendBody, &Event::Failed), None);
    assert_eq!(try_link(&l, Stage::Connect, &Event::Refused), None);
}

#[test]
fn a_request_is_sent() {
    let r = request(vec![link(7, true), link(8, true)]);
    assert_eq!(r.stage(), Stage::Connect);
    assert_eq!(r.port(), 7);
    let r = r.next(&Event::Succeeded);
    assert_eq!(r.stage(), Stage::SendLine);
    assert_eq!(r.line("open 3 a.txt"), "t7 open 3 a.txt\n");
    let r = r.next(&Event::Succeeded).next(&line("rclaude 1\n"));
    assert_eq!(r.stage(), Stage::SendBody);
    let r = r.next(&Event::Succeeded);
    assert_eq!(r.stage(), Stage::Done);
    assert_eq!(r.port(), 7);
}

#[test]
fn links_that_fail_are_passed_over() {
    let three = || vec![link(1, true), link(2, false), link(3, true)];
    let r = after(three(), &[Event::Failed]);
    assert_eq!((r.stage(), r.port()), (Stage::Connect, 2));
    let r = after(three(), &[Event::Succeeded, Event::Succeeded, line("who?\n"), Event::Succeeded, Event::Failed]);
    assert_eq!((r.stage(), r.port()), (Stage::Connect, 3));
    let r = after(three(), &[Event::Refused, Event::Refused, Event::Refused]);
    assert_eq!(r.stage(), Stage::Over);
    assert_eq!(r.next(&Event::Succeeded).stage(), Stage::Over);
    assert_eq!(request(Vec::new()).stage(), Stage::Over);
}

#[test]
fn only_a_refused_port_is_stale() {
    let r = request(vec![link(5, true)]);
    assert_eq!(r.stale_file(&Event::Refused), Some(b"/links/5".to_vec()));
    assert_eq!(r.stale_file(&Event::Failed), None);
    assert_eq!(r.stale_file(&Event::Succeeded), None);
    assert_eq!(r.next(&Event::Succeeded).stale_file(&Event::Refused), None);
    let kept = Link { port: 5, token: "t".to_string(), file: None, hello: false };
    assert_eq!(request(vec![kept]).stale_file(&Event::Refused), None);
}

#[test]
fn the_search_path() {
    let places = |p: &[u8]| -> Vec<String> {
        candidates(p, "open").into_iter().map(|c| String::from_utf8(c).unwrap()).collect()
    };
    assert_eq!(places(b"/usr/bin:/bin/"), ["/usr/bin/open", "/bin/open"]);
    assert_eq!(places(b"/a::/b"), ["/a/open", "open", "/b/open"]);
    assert_eq!(places(b""), ["open"]);
}

#[test]
fn the_real_program_is_another_one() {
    let at = |is_file: bool, p: Option<&str>| Candidate { is_file, canonical: p.map(|p| p.as_bytes().to_vec()) };
    let me = Some(b"/opt/bin/rtools-1".to_vec());
    let found = vec![
        at(false, Some("/x/open")),
        at(true, Some("/opt/bin/rtools-1")),
        at(true, Some("/usr/local/bin/rtools")),
        at(true, Some("/usr/bin/open")),
        at(true, Some("/bin/open")),
    ];
    assert_eq!(find_real(&found, &me, "rtools"), Some(3));
    let ours = vec![at(false, Some("/x/open")), at(true, Some("/opt/bin/rtools-1")), at(true, Some("/a/rtools"))];
    assert_eq!(find_real(&ours, &me, "rtools"), None);
    assert_eq!(find_real(&vec![at(true, None)], &None, "rtools"), None);
    assert_eq!(find_real(&vec![at(true, None)], &me, "rtools"), Some(0));
    assert!(is_this_program(&Some(b"/usr/local/bin/rtools".to_vec()), "rtools"));
    assert!(!is_this_program(&Some(b"/".to_vec()), "rtools"));
}

#[test]
fn a_program_that_did_not_take_over() {
    assert_eq!(run_real(true), 126);
    assert_eq!(run_real(false), 127);
    assert_eq!(cannot_run("open", b"/bin/open", "denied"), "open: cannot run /bin/open: denied");
}
