use remote_tools::shell::{cap, combine, marker_dir, marker_path, nanos, quote, run, run_script, shell_quote, Ended, JobEntry, Jobs, ShellError};

fn jobs() -> Jobs {
    Jobs::open(Some(b"/run/user/1"), b"/tmp", "rtools")
}

#[test]
fn cap_keeps_both_ends() {
    let s = "a".repeat(20_000) + &"b".repeat(20_000);
    let c = cap(s);
    assert!(c.starts_with("aaaa") && c.ends_with("bbbb") && c.contains("cut from the middle"));
}

#[test]
fn cap_is_exact() {
    let fits = "x".repeat(30_000);
    assert_eq!(cap(fits.clone()), fits);
    let long = "x".repeat(30_001);
    let half = "x".repeat(15_000);
    assert_eq!(cap(long), format!("{half}\n\n[… 1 bytes cut from the middle of the output …]\n\n{half}"));
}

#[test]
fn cap_tears_no_character() {
    // Three bytes each, shifted by one: both cuts fall inside a character.
    let s = format!("a{}", "€".repeat(10_001));
    let kept_head = format!("a{}", "€".repeat(4_999));
    let kept_tail = "€".repeat(5_000);
    let cut = s.len() - kept_head.len() - kept_tail.len();
    assert_eq!(cap(s), format!("{kept_head}\n\n[… {cut} bytes cut from the middle of the output …]\n\n{kept_tail}"));
}

#[test]
fn cwd_persists_and_output_combines() {
    let r = run(Ended::Exited(Some(0)), b"out\n", b"err\n", Some("/\n"), true);
    assert_eq!(r.status, 0);
    assert_eq!(r.output, "out\nerr\n");
    assert_eq!(r.cwd.as_deref(), Some(&b"/"[..]));
    let r = run(Ended::Exited(Some(3)), b"", b"", Some("/tmp\n"), true);
    assert_eq!(r.status, 3);
}

#[test]
fn timeout_kills() {
    let r = run(Ended::TimedOut, b"", b"", None, false);
    assert!(r.timed_out);
    assert!(!r.output.contains("late"));
    assert_eq!(r.status, -1);
    assert_eq!(r.cwd, None);
}

#[test]
fn a_signal_leaves_no_code() {
    let r = run(Ended::Exited(None), b"\xff", b"", Some("/gone"), false);
    assert_eq!((r.status, r.timed_out, r.cwd), (-1, false, None));
    assert_eq!(r.output, "\u{fffd}");
}

#[test]
fn outputs_are_combined() {
    assert_eq!(combine("a", "b"), "a\nb");
    assert_eq!(combine("a\n", "b"), "a\nb");
    assert_eq!(combine("", "b"), "b");
    assert_eq!(combine("a", ""), "a");
}

#[test]
fn quoting() {
    assert_eq!(quote("a b"), "'a b'");
    assert_eq!(quote("it's"), "'it'\\''s'");
    assert_eq!(quote(""), "''");
    assert_eq!(shell_quote(b"/a'\xff"), "'/a'\\''\u{fffd}'");
}

#[test]
fn scripts() {
    let marker = marker_path(b"/tmp", "rtools", 7, 123_456_789_012_345_678_901);
    assert_eq!(marker, b"/tmp/rtools-cwd-7-123456789012345678901".to_vec());
    assert_eq!(
        run_script("ls", b"/tmp/m"),
        "ls\n__rc=$?; pwd > '/tmp/m' 2>/dev/null; exit $__rc"
    );
    assert_eq!(marker_dir("/a b\n"), b"/a b".to_vec());
    assert_eq!(marker_dir("/tmp/x \n"), b"/tmp/x ".to_vec());
    assert_eq!(marker_dir("/x\n\n"), b"/x\n".to_vec());
    assert_eq!(marker_dir("/x\u{3000}"), "/x\u{3000}".as_bytes().to_vec());
    assert_eq!(marker_dir(""), b"".to_vec());
}

#[test]
fn the_clock() {
    assert_eq!(nanos(Some(5)), 5);
    assert_eq!(nanos(None), 0);
}

#[test]
fn where_jobs_are() {
    assert_eq!(jobs().directory(), b"/run/user/1/rtools/jobs".to_vec());
    assert_eq!(Jobs::open(None, b"/tmp", "rtools").directory(), b"/tmp/rtools/jobs".to_vec());
    assert_eq!(jobs().file("1f", ".out"), b"/run/user/1/rtools/jobs/1f.out".to_vec());
}

#[test]
fn starting_a_job() {
    let jobs = Jobs::open(Some(b"/r"), b"/tmp", "rtools");
    let start = jobs.start(0x12_dead_beef, "make -j", Some("Build"));
    assert_eq!(start.job.id, "deadbeef");
    assert_eq!(start.job.out, b"/r/rtools/jobs/deadbeef.out".to_vec());
    assert_eq!(start.meta, b"/r/rtools/jobs/deadbeef.cmd".to_vec());
    assert_eq!(start.meta_text, "Build\nmake -j\n");
    assert_eq!(
        start.script,
        "echo $$ > '/r/rtools/jobs/deadbeef.pid'; ( make -j\n) > '/r/rtools/jobs/deadbeef.out' 2>&1; \
         echo $? > '/r/rtools/jobs/deadbeef.status'"
    );
    assert_eq!(jobs.start(0x1_0000_0000, "x", None).job.id, "0");
    assert_eq!(jobs.start(0x1_0000_000a, "x", None).meta_text, "\nx\n");
}

#[test]
fn a_started_job_is_found_again() {
    let jobs = jobs();
    let start = jobs.start(0xab, "sleep 9", Some("Nap"));
    let name = start.meta.rsplit(|b| *b == b'/').next().unwrap().to_vec();
    let names = vec![b"zz.cmd".to_vec(), b"ab.out".to_vec(), name, b"\xff.cmd".to_vec(), b"1.cmd".to_vec(), b"cmd".to_vec()];
    assert_eq!(jobs.ids(&names), ["1", "ab", "zz"]);
    let entry = JobEntry { id: start.job.id, meta: Some(start.meta_text), status: None };
    assert_eq!(jobs.list(&vec![entry]), "ab  running  Nap");
}

#[test]
fn listing_jobs() {
    let jobs = jobs();
    assert_eq!(jobs.list(&Vec::new()), "no background jobs");
    let entries = vec![
        JobEntry { id: "1".into(), meta: Some("\nmake\nmore\n".into()), status: Some("0\n".into()) },
        JobEntry { id: "2".into(), meta: None, status: None },
    ];
    assert_eq!(jobs.list(&entries), "1  finished, exit code 0  make\n2  running  ");
    assert_eq!(jobs.status(Some(" 137 \n")), "finished, exit code 137");
    assert_eq!(jobs.status(None), "running");
}

#[test]
fn showing_a_job() {
    let jobs = Jobs::open(Some(b"/r"), b"/tmp", "rtools");
    assert_eq!(jobs.show("9", false, None, None, 5).unwrap_err().message(), "no job 9");
    let all = jobs.show("1", true, Some(b"a\nb\n"), Some("2"), 5).unwrap();
    assert_eq!(all, "job 1: finished, exit code 2\noutput: /r/rtools/jobs/1.out (2 lines)\na\nb\n");
    let tail = jobs.show("1", true, Some(b"a\nb\nc"), None, 2).unwrap();
    assert_eq!(tail, "job 1: running\noutput: /r/rtools/jobs/1.out (3 lines, last 2)\nb\nc\n");
    let none = jobs.show("1", true, None, None, 0).unwrap();
    assert_eq!(none, "job 1: running\noutput: /r/rtools/jobs/1.out (0 lines)\n");
}

#[test]
fn stopping_a_job() {
    let jobs = jobs();
    assert_eq!(jobs.stop("1", Some(" 42\n")).unwrap(), -42);
    assert_eq!(jobs.stop("1", Some("+7")).unwrap(), -7);
    assert_eq!(jobs.stop("1", Some("-7")).unwrap(), 7);
    assert_eq!(jobs.stop("1", Some("2147483647")).unwrap(), -2147483647);
    for bad in ["", "x", "2147483648", "-", "1 2", "++1"] {
        assert_eq!(jobs.stop("q", Some(bad)).unwrap_err().message(), "no job q");
    }
    assert!(matches!(jobs.stop("q", None), Err(ShellError::NoJob { .. })));
}

#[test]
fn shell_errors_say_why() {
    assert_eq!(ShellError::CannotStartBash.message(), "cannot start bash");
    assert_eq!(ShellError::NoStatus.message(), "bash did not report a status");
    assert_eq!(ShellError::CannotStartJob.message(), "cannot start the background job (is setsid installed?)");
    assert_eq!(ShellError::CannotCreate { path: b"/r/j".to_vec() }.message(), "cannot create /r/j");
    assert_eq!(ShellError::CannotDescribe { reason: "disk full".into() }.message(), "disk full");
}

#[test]
fn a_directory_that_ends_in_a_space_is_kept() {
    let r = run(Ended::Exited(Some(0)), b"", b"", Some("/tmp/x \n"), true);
    assert_eq!(r.status, 0);
    assert_eq!(r.cwd.as_deref(), Some(&b"/tmp/x "[..]));
}

#[test]
fn a_comment_takes_in_nothing_of_the_script() {
    let start = jobs().start(1, "echo hi # greet", None);
    assert!(start.script.contains("( echo hi # greet\n) > "));
}

#[test]
fn output_that_is_not_utf8_is_shown() {
    let jobs = Jobs::open(Some(b"/r"), b"/tmp", "rtools");
    let shown = jobs.show("1", true, Some(b"ok\n\xff\n"), None, 100).unwrap();
    assert_eq!(shown, "job 1: running\noutput: /r/rtools/jobs/1.out (2 lines)\nok\n\u{fffd}\n");
}

#[test]
fn a_description_is_only_recorded() {
    let (with, without) = (jobs().start(7, "make", Some("Build")), jobs().start(7, "make", None));
    assert_eq!((&with.job.id, &with.job.out), (&without.job.id, &without.job.out));
    assert_eq!((&with.meta, &with.script), (&without.meta, &without.script));
    assert_eq!((with.meta_text.as_str(), without.meta_text.as_str()), ("Build\nmake\n", "\nmake\n"));
}
