use remote_tools::files::{edit, read, read_text, resolve, FileError, Found, Resolution, Walk, WriteStep};
use remote_tools::follow::{Entry, MAX_LINKS};

fn bytes(s: &str) -> Vec<u8> {
    s.as_bytes().to_vec()
}

/// Resolves as a server would where exactly `on_disk` exists and every canonical path is itself,
/// but for the links, each with the place it leads to. A link that is not in `on_disk` leads
/// nowhere.
fn resolve_on(path: &str, cwd: &str, roots: &[&str], on_disk: &[&str], links: &[(&str, &str)]) -> Result<String, FileError> {
    let roots: Vec<Vec<u8>> = roots.iter().map(|r| bytes(r)).collect();
    let mut search = Resolution::begin(path, cwd.as_bytes());
    loop {
        let candidate = String::from_utf8(search.candidate()).unwrap();
        let link = |p: &str| links.iter().find(|(from, _)| *from == p).map(|(_, to)| bytes(to));
        let there = |p: &str| on_disk.contains(&p);
        let entry = match link(&candidate) {
            Some(target) => Entry::Link { target, there: there(&candidate) },
            None if there(&candidate) => Entry::There,
            None => Entry::Absent,
        };
        match search.step(&entry) {
            Walk::Look(next) => search = next,
            Walk::Settle(found) => {
                let ancestor = String::from_utf8(found.ancestor()).unwrap();
                let canonical = match link(&ancestor) {
                    _ if !there(&ancestor) => None,
                    Some(to) => Some(to),
                    None => Some(bytes(&ancestor)),
                };
                return resolve(&found, canonical.as_deref(), &roots).map(|p| String::from_utf8(p).unwrap());
            }
        }
    }
}

#[test]
fn edit_rules() {
    let p = bytes("/tmp/edit.txt");
    assert!(edit(&p, Some("a b a\n"), "a", "a", false).is_err(), "same strings");
    assert!(edit(&p, Some("a b a\n"), "z", "y", false).is_err(), "absent");
    assert!(edit(&p, Some("a b a\n"), "a", "c", false).is_err(), "ambiguous");
    let (text, n) = edit(&p, Some("a b a\n"), "a", "c", true).unwrap();
    assert_eq!(n, 2);
    assert_eq!(text, "c b c\n");
    let (text, n) = edit(&p, Some(&text), "b", "d", false).unwrap();
    assert_eq!(n, 1);
    assert_eq!(text, "c d c\n");
}

#[test]
fn read_window() {
    let p = bytes("/tmp/read.txt");
    let found = Found::Content(bytes("one\ntwo\nthree\n"));
    let all = read(&p, &found, None, None).unwrap();
    assert_eq!(all, "     1\tone\n     2\ttwo\n     3\tthree\n");
    let mid = read(&p, &found, Some(2), Some(1)).unwrap();
    assert_eq!(mid, "     2\ttwo\n[1 more lines; read from offset 3]\n");
    assert!(read(&p, &found, Some(9), None).is_err());
    let empty = Found::Content(bytes(""));
    assert!(read(&bytes("/tmp/empty.txt"), &empty, None, None).is_err());
}

#[test]
fn roots_hold() {
    let disk = ["/", "/tmp", "/etc", "/etc/passwd"];
    let ok = resolve_on("x/y.txt", "/tmp", &["/tmp"], &disk, &[]).unwrap();
    assert!(ok.starts_with("/tmp/"));
    assert_eq!(ok, "/tmp/x/y.txt");
    assert!(resolve_on("/etc/passwd", "/tmp", &["/tmp"], &disk, &[]).is_err());
    assert!(resolve_on("../../../../etc/passwd", "/tmp", &["/tmp"], &disk, &[]).is_err());
    assert!(resolve_on("/etc/passwd", "/tmp", &[], &disk, &[]).is_ok(), "no roots means anywhere");
}

#[test]
fn links_out_of_a_root_are_refused() {
    let disk = ["/", "/srv", "/srv/out"];
    let links = [("/srv/out", "/etc")];
    let e = resolve_on("out/passwd", "/srv", &["/srv", "/opt"], &disk, &links).unwrap_err();
    assert_eq!(e.message(), "/etc/passwd is outside the directories this server serves (/srv, /opt)");
    assert_eq!(resolve_on("out/passwd", "/srv", &["/etc"], &disk, &links).unwrap(), "/etc/passwd");
    assert!(resolve_on("/srvx/a", "/srv", &["/srv"], &disk, &[]).is_err(), "whole components");
}

#[test]
fn links_out_to_a_new_place_are_refused() {
    let disk = ["/", "/srv", "/outside"];
    let links = [("/srv/link", "/outside/new")];
    let e = resolve_on("link", "/srv", &["/srv"], &disk, &links).unwrap_err();
    assert_eq!(e.message(), "/outside/new is outside the directories this server serves (/srv)");
    let e = resolve_on("link/below", "/srv", &["/srv"], &disk, &links).unwrap_err();
    assert_eq!(e.message(), "/outside/new/below is outside the directories this server serves (/srv)");
    let up = [("/srv/link", "../outside/new")];
    assert!(resolve_on("link", "/srv", &["/srv"], &disk, &up).is_err());
    assert_eq!(resolve_on("link", "/srv", &["/"], &disk, &links).unwrap(), "/srv/link");
    assert_eq!(resolve_on("link", "/srv", &["/srv", "/outside"], &disk, &links).unwrap(), "/srv/link");
    assert_eq!(resolve_on("link", "/srv", &[], &disk, &links).unwrap(), "/srv/link");
    assert_eq!(resolve_on("link2", "/srv", &["/srv"], &disk, &links).unwrap(), "/srv/link2");
}

#[test]
fn links_to_a_new_place_inside_get_through() {
    let disk = ["/", "/srv", "/srv/d"];
    for target in ["new", "./new", "/srv/new", "d/../new", "../srv/new", "d/none/x"] {
        let links = [("/srv/link", target)];
        assert_eq!(resolve_on("link", "/srv", &["/srv"], &disk, &links).unwrap(), "/srv/link", "{target}");
        assert_eq!(resolve_on("link/x", "/srv", &["/srv"], &disk, &links).unwrap(), "/srv/link/x", "{target}");
    }
}

#[test]
fn a_link_behind_a_link_is_followed() {
    let disk = ["/", "/srv", "/srv/s", "/outside/dir"];
    // `..` behind a link goes up from where the link leads.
    let links = [("/srv/link", "s/../new"), ("/srv/s", "/outside/dir")];
    let e = resolve_on("link", "/srv", &["/srv"], &disk, &links).unwrap_err();
    assert_eq!(e.message(), "/outside/new is outside the directories this server serves (/srv)");
    let chain = [("/srv/a", "b"), ("/srv/b", "c"), ("/srv/c", "/outside/new")];
    assert!(resolve_on("a", "/srv", &["/srv"], &["/", "/srv"], &chain).is_err());
    assert_eq!(resolve_on("a", "/srv", &["/srv"], &["/", "/srv"], &chain[..2]).unwrap(), "/srv/a");
}

#[test]
fn links_in_a_loop_cannot_be_followed() {
    let links = [("/srv/a", "b"), ("/srv/b", "a")];
    let e = resolve_on("a", "/srv", &["/srv"], &["/", "/srv"], &links).unwrap_err();
    assert_eq!(e.message(), "cannot follow the links of /srv/a");
    assert_eq!(resolve_on("a", "/srv", &[], &["/", "/srv"], &links).unwrap(), "/srv/a");
    let names: Vec<String> = (0..=MAX_LINKS + 1).map(|n| format!("/srv/{n}")).collect();
    let long: Vec<(&str, &str)> = names.windows(2).map(|w| (w[0].as_str(), w[1].as_str())).collect();
    assert!(resolve_on("0", "/srv", &["/srv"], &["/", "/srv"], &long).is_err());
    assert!(resolve_on("1", "/srv", &["/srv"], &["/", "/srv"], &long).is_ok());
}

#[test]
fn a_link_that_cannot_be_read() {
    let end = |answers: &[Entry]| {
        let mut search = Resolution::begin("f", b"/srv");
        for answer in answers {
            match search.step(answer) {
                Walk::Look(next) => search = next,
                Walk::Settle(found) => return found,
            }
        }
        unreachable!()
    };
    let lost = end(&[Entry::Lost, Entry::There, Entry::There, Entry::Lost]);
    assert_eq!(lost.ancestor(), bytes("/srv"));
    let e = resolve(&lost, Some(b"/srv"), &vec![bytes("/srv")]).unwrap_err();
    assert_eq!(e.message(), "cannot follow the links of /srv/f");
    // Without a canonical form, the path itself is held against the roots.
    let there = end(&[Entry::There]);
    assert_eq!(resolve(&there, None, &vec![bytes("/srv")]).unwrap(), bytes("/srv/f"));
    assert!(resolve(&there, None, &vec![bytes("/opt")]).is_err());
    assert_eq!(resolve(&there, Some(b"/srv/g"), &vec![bytes("/srv")]).unwrap(), bytes("/srv/g"));
}

#[test]
fn a_resolved_path_resolves_to_itself() {
    let disk = ["/", "/srv", "/srv/s", "/data"];
    let links = [("/srv/s", "/data"), ("/data/link", "new")];
    for path in ["s/x", "s/link", "s/link/y", "s", "a/../b"] {
        let p = resolve_on(path, "/srv", &["/data", "/srv"], &disk, &links).unwrap();
        assert_eq!(resolve_on(&p, "/elsewhere", &["/data", "/srv"], &disk, &links).unwrap(), p);
        assert_eq!(resolve_on(path, "/srv", &["/opt", "/srv", "/data"], &disk, &links).unwrap(), p);
        assert_eq!(resolve_on(path, "/srv", &[], &disk, &links).unwrap(), p);
    }
}

#[test]
fn nothing_on_disk_keeps_the_normal_path() {
    assert_eq!(resolve_on("a/./b/../c", "/w/", &[], &[], &[]).unwrap(), "/w/a/c");
    assert_eq!(resolve_on("../x", "rel", &[], &[], &[]).unwrap(), "x");
    assert_eq!(resolve_on("", "/w", &["/"], &[], &[]).unwrap(), "/w");
}

#[test]
fn read_failures_say_why() {
    let p = bytes("/d/f");
    assert_eq!(read(&p, &Found::Directory, None, None).unwrap_err().message(), "/d/f is a directory, not a file");
    assert_eq!(read(&p, &Found::Unreadable, None, None).unwrap_err().message(), "cannot read /d/f");
    assert_eq!(read(&p, &Found::Content(Vec::new()), None, None).unwrap_err().message(), "/d/f is empty");
    let e = read(&p, &Found::Content(bytes("a\nb")), Some(3), None).unwrap_err();
    assert_eq!(e.message(), "/d/f has 2 lines; offset 3 is past its end");
}

#[test]
fn read_shows_what_is_not_utf8() {
    let found = Found::Content(vec![b'a', 0xff, b'b', b'\r', b'\n', b'c', b'\r']);
    assert_eq!(read(&bytes("/f"), &found, None, None).unwrap(), "     1\ta\u{fffd}b\n     2\tc\r\n");
    let e = read(&[b'/', 0xff], &Found::Directory, None, None).unwrap_err();
    assert_eq!(e.message(), "/\u{fffd} is a directory, not a file");
}

#[test]
fn long_lines_are_cut() {
    let exact = "x".repeat(2000);
    let long = "é".repeat(2001);
    let text = format!("{exact}\n{long}\n");
    let shown = read_text(b"/f", &text, None, None).unwrap();
    let expected = format!("     1\t{exact}\n     2\t{}… [line cut at 2000 characters]\n", "é".repeat(2000));
    assert_eq!(shown, expected);
}

#[test]
fn offsets_and_limits_at_their_ends() {
    let text = "1\n2\n3";
    assert_eq!(read_text(b"/f", text, Some(0), Some(0)).unwrap(), "[3 more lines; read from offset 1]\n");
    assert_eq!(read_text(b"/f", text, Some(3), Some(usize::MAX)).unwrap(), "     3\t3\n");
    let many = "l\n".repeat(2001);
    let shown = read_text(b"/f", &many, None, None).unwrap();
    assert!(shown.ends_with("  2000\tl\n[1 more lines; read from offset 2001]\n"));
    assert_eq!(read_text(b"/f", &many, Some(2001), None).unwrap(), "  2001\tl\n");
}

#[test]
fn reading_on_shows_the_rest() {
    let text = "a\nb\nc\nd\ne\n";
    let first = read_text(b"/f", text, Some(2), Some(2)).unwrap();
    let (rows, note) = first.split_once('[').unwrap();
    assert_eq!(note, "2 more lines; read from offset 4]\n");
    let second = read_text(b"/f", text, Some(4), Some(9)).unwrap();
    assert_eq!(format!("{rows}{second}"), read_text(b"/f", text, Some(2), Some(11)).unwrap());
}

#[test]
fn edit_failures_say_why() {
    let say = |r: Result<(String, usize), FileError>| r.unwrap_err().message();
    assert_eq!(say(edit(b"/f", None, "a", "a", false)), "old_string and new_string are the same");
    assert_eq!(say(edit(b"/f", None, "", "a", false)), "old_string is empty");
    assert_eq!(say(edit(b"/f", None, "b", "a", false)), "cannot read /f");
    assert_eq!(say(edit(b"/f", Some("x"), "b", "a", false)), "old_string was not found in /f");
    assert_eq!(
        say(edit(b"/f", Some("bbb"), "b", "a", false)),
        "old_string matches 3 places in /f; include more context to make it unique, or set replace_all"
    );
}

#[test]
fn matches_do_not_overlap() {
    assert_eq!(edit(b"/f", Some("aaa"), "aa", "b", false).unwrap(), ("ba".to_string(), 1));
    assert_eq!(edit(b"/f", Some("aaaa"), "aa", "aaa", true).unwrap(), ("aaaaaa".to_string(), 2));
    assert_eq!(edit(b"/f", Some("añb"), "ñ", "", false).unwrap(), ("ab".to_string(), 1));
}

#[test]
fn a_file_is_replaced_from_beside() {
    let temp = |p: &str| String::from_utf8(remote_tools::files::write(p.as_bytes(), "rtools").temp).unwrap();
    assert_eq!(temp("/d/a.txt"), "/d/a.txt.rtools.tmp");
    assert_eq!(temp("/d/Makefile"), "/d/Makefile..rtools.tmp");
    assert_eq!(temp("/d/.bashrc"), "/d/.bashrc..rtools.tmp");
    assert_eq!(temp("/d.x/a.tar.gz"), "/d.x/a.tar.gz.rtools.tmp");
    assert_eq!(temp("/d/..a"), "/d/..a.rtools.tmp");
    assert_eq!(temp("/"), "/");
    assert_eq!(remote_tools::files::write(b"/d/a.\xff", "rtools").temp, b"/d/a..rtools.tmp".to_vec());
    assert_eq!(remote_tools::files::write(b"/d/e/a.txt", "rtools").parent, Some(bytes("/d/e")));
    assert_eq!(remote_tools::files::write(b"/a", "rtools").parent, Some(bytes("/")));
    assert_eq!(remote_tools::files::write(b"/", "rtools").parent, None);
    assert_eq!(remote_tools::files::write(b"a", "rtools").parent, Some(bytes("")));
}

#[test]
fn the_steps_of_a_write() {
    let plan = remote_tools::files::write(b"/d/a.txt", "rtools");
    assert_eq!(plan.first(), WriteStep::CreateParent);
    assert_eq!(plan.next(WriteStep::CreateParent, true).unwrap(), WriteStep::WriteTemp);
    assert_eq!(plan.next(WriteStep::WriteTemp, true).unwrap(), WriteStep::Replace);
    assert_eq!(plan.next(WriteStep::Replace, true).unwrap(), WriteStep::Done);
    assert_eq!(plan.next(WriteStep::CreateParent, false).unwrap_err().message(), "cannot create /d");
    assert_eq!(
        plan.next(WriteStep::WriteTemp, false).unwrap_err().message(),
        "cannot write /d/a.txt.rtools.tmp"
    );
    assert_eq!(plan.next(WriteStep::Replace, false).unwrap_err().message(), "cannot replace /d/a.txt");
    assert_eq!(remote_tools::files::write(b"/", "rtools").first(), WriteStep::WriteTemp);
}

#[test]
fn what_was_written_is_read() {
    let content = "größe\r\nzwei";
    let found = Found::Content(content.as_bytes().to_vec());
    assert_eq!(read(b"/f", &found, None, None).unwrap(), read_text(b"/f", content, None, None).unwrap());
    assert_eq!(read(b"/f", &found, None, None).unwrap(), "     1\tgröße\n     2\tzwei\n");
}

#[test]
fn nothing_apart_from_the_roots_is_reached() {
    let disk = ["/", "/home/me", "/home/me/src", "/home/me/.ssh"];
    let links = [("/home/me/src", "/data/src")];
    let roots = ["/home/me/src", "/opt"];
    assert!(resolve_on("../.ssh/id", "/home/me/src", &roots, &disk, &[]).is_err());
    assert!(resolve_on("/home/me/.ssh", "/home/me/src", &roots, &disk, &[]).is_err());
    assert!(resolve_on("/home/me", "/home/me/src", &roots, &disk, &[]).is_err());
    assert_eq!(resolve_on("new/f", "/home/me/src", &["/data"], &disk, &links).unwrap(), "/data/src/new/f");
}

#[test]
fn a_whole_write_leaves_the_content_alone() {
    // A disk by path, and the steps as they act on it; the step with this number fails.
    let replace = |fails_at: usize| {
        let plan = remote_tools::files::write(b"/d/a.txt", "rtools");
        let mut disk = std::collections::BTreeMap::from([(bytes("/d/a.txt"), "a longer old text")]);
        let mut step = plan.first();
        for n in 0.. {
            let succeeds = n != fails_at;
            match step {
                WriteStep::CreateParent => {}
                WriteStep::WriteTemp => {
                    disk.insert(plan.temp.clone(), if succeeds { "new" } else { "n" });
                }
                WriteStep::Replace if succeeds => {
                    let held = disk.remove(&plan.temp).unwrap();
                    disk.insert(plan.path.clone(), held);
                }
                WriteStep::Replace => {}
                WriteStep::Done => return (disk, true),
            }
            match plan.next(step, succeeds) {
                Ok(next) => step = next,
                Err(_) => return (disk, false),
            }
        }
        unreachable!()
    };
    let (disk, done) = replace(usize::MAX);
    assert!(done);
    assert_eq!(disk.into_iter().collect::<Vec<_>>(), [(bytes("/d/a.txt"), "new")]);
    for n in 0..3 {
        let (disk, done) = replace(n);
        assert!(!done);
        assert_eq!(disk[&bytes("/d/a.txt")], "a longer old text");
    }
}
