use remote_tools::files::{Found, Walk};
use remote_tools::follow::Entry;
use remote_tools::server::{
    internal, invalid, text_result, BashArgs, BashJobsArgs, BashPlan, EditArgs, Fault, JobsPlan, ReadArgs, Remote,
    ToolError, WriteArgs,
};
use remote_tools::shell::{run, Ended, Job, Jobs, ShellError};

fn remote(roots: &[&str], hostname: Option<&[u8]>) -> Remote {
    let roots = roots.iter().map(|r| r.as_bytes().to_vec()).collect();
    let jobs = Jobs::open(Some(b"/r"), b"/tmp", "rtools");
    Remote::new(roots, b"/w".to_vec(), jobs, hostname, "the client".to_string())
}

fn bash(timeout: Option<u64>, run_in_background: bool) -> BashArgs {
    BashArgs { command: "ls".to_string(), timeout, description: None, run_in_background }
}

fn resolved(remote: &Remote, path: &str) -> Result<Vec<u8>, ToolError> {
    let mut search = remote.resolve(path, b"/w");
    loop {
        match search.step(&Entry::Absent) {
            Walk::Look(next) => search = next,
            Walk::Settle(end) => return remote.resolved(&end, None),
        }
    }
}

#[test]
fn replies_and_errors() {
    let r = text_result("x".to_string());
    assert_eq!((r.text.as_str(), r.is_error), ("x", false));
    assert_eq!(invalid("a".to_string()).fault, Fault::InvalidParams);
    assert_eq!(internal("b".to_string()).fault, Fault::Internal);
    assert_eq!(internal("b".to_string()).message, "b");
}

#[test]
fn paths_outside_are_invalid() {
    let remote = remote(&["/w"], None);
    assert_eq!(resolved(&remote, "a/../b").unwrap(), b"/w/b".to_vec());
    let e = resolved(&remote, "/etc/x").unwrap_err();
    assert_eq!(e.fault, Fault::InvalidParams);
    assert_eq!(e.message, "/etc/x is outside the directories this server serves (/w)");
}

#[test]
fn the_reply_to_read() {
    let a = ReadArgs { file_path: "f".to_string(), offset: Some(2), limit: None };
    let reply = remote(&[], None).read(b"/w/f", &Found::Content(b"a\nb\n".to_vec()), &a).unwrap();
    assert_eq!(reply.text, "     2\tb\n");
    assert!(!reply.is_error);
    let e = remote(&[], None).read(b"/w/f", &Found::Unreadable, &a).unwrap_err();
    assert_eq!((e.fault, e.message.as_str()), (Fault::InvalidParams, "cannot read /w/f"));
}

#[test]
fn the_reply_to_write() {
    let a = WriteArgs { file_path: "f".to_string(), content: "größe".to_string() };
    assert_eq!(remote(&[], None).write(b"/w/f", &a).text, "Wrote 7 bytes to /w/f");
}

#[test]
fn the_reply_to_edit() {
    let mut a = EditArgs {
        file_path: "f".to_string(),
        old_string: "a".to_string(),
        new_string: "b".to_string(),
        replace_all: false,
    };
    let (content, reply) = remote(&[], None).edit(b"/f", Some("xay"), &a).unwrap();
    assert_eq!(content, "xby");
    assert_eq!(reply.text, "Edited /f: replaced 1 occurrence");
    let e = remote(&[], None).edit(b"/f", Some("aa"), &a).unwrap_err();
    assert_eq!(e.fault, Fault::InvalidParams);
    a.replace_all = true;
    let (content, reply) = remote(&[], None).edit(b"/f", Some("aa"), &a).unwrap();
    assert_eq!(content, "bb");
    assert_eq!(reply.text, "Edited /f: replaced 2 occurrences");
}

#[test]
fn time_limits() {
    let plan = |t: Option<u64>| remote(&[], None).bash_plan(&bash(t, false));
    assert_eq!(plan(None), BashPlan::Foreground { timeout: 120_000 });
    assert_eq!(plan(Some(0)), BashPlan::Foreground { timeout: 0 });
    assert_eq!(plan(Some(600_000)), BashPlan::Foreground { timeout: 600_000 });
    assert_eq!(plan(Some(600_001)), BashPlan::Foreground { timeout: 600_000 });
    assert_eq!(remote(&[], None).bash_plan(&bash(Some(1), true)), BashPlan::Background);
}

#[test]
fn the_reply_to_a_background_run() {
    let job = Job { id: "1f".to_string(), out: b"/r/1f.out".to_vec() };
    assert_eq!(
        remote(&[], None).bash_started(&job).text,
        "Job 1f started in the background. Output is written to /r/1f.out. Poll it with bash_jobs."
    );
    assert_eq!(remote(&[], None).jobs().directory(), b"/r/rtools/jobs".to_vec());
}

#[test]
fn the_reply_to_bash() {
    let remote = remote(&[], None);
    let mut cwd = b"/w".to_vec();
    let ok = remote.bash(&mut cwd, run(Ended::Exited(Some(0)), b"hi\n", b"", None, false), 5);
    assert_eq!((ok.text.as_str(), ok.is_error), ("hi\n", false));
    let bad = remote.bash(&mut cwd, run(Ended::Exited(Some(2)), b"hi", b"", None, false), 5);
    assert_eq!((bad.text.as_str(), bad.is_error), ("hi\n[exit code 2]", true));
    let killed = remote.bash(&mut cwd, run(Ended::Exited(None), b"", b"", None, false), 5);
    assert_eq!((killed.text.as_str(), killed.is_error), ("\n[exit code -1]", true));
    let late = remote.bash(&mut cwd, run(Ended::TimedOut, b"hi", b"", None, false), 200);
    assert_eq!((late.text.as_str(), late.is_error), ("hi\n[timed out after 200 ms]", true));
    assert_eq!(cwd, b"/w".to_vec());
}

#[test]
fn the_directory_persists_between_runs() {
    let remote = remote(&[], None);
    let mut cwd = b"/w".to_vec();
    for (marker, is_dir, then) in
        [(Some("/a\n"), true, "/a"), (None, false, "/a"), (Some("/gone\n"), false, "/a"), (Some("/b"), true, "/b")]
    {
        let ended = run(Ended::Exited(Some(1)), b"", b"", marker, is_dir);
        remote.bash(&mut cwd, ended, 1);
        assert_eq!(cwd, then.as_bytes().to_vec());
    }
}

#[test]
fn a_description_changes_no_plan() {
    for background in [false, true] {
        let mut described = bash(Some(5), background);
        described.description = Some("List".to_string());
        let plain = bash(Some(5), background);
        assert_eq!(remote(&[], None).bash_plan(&described), remote(&[], None).bash_plan(&plain));
    }
}

#[test]
fn calls_of_bash_jobs() {
    let plan = |id: Option<&str>, stop: bool, tail: Option<usize>| {
        remote(&[], None).jobs_plan(BashJobsArgs { id: id.map(str::to_string), stop, tail })
    };
    assert!(matches!(plan(None, true, Some(3)), JobsPlan::List));
    match plan(Some("1f"), true, None) {
        JobsPlan::Stop { id, tail } => assert_eq!((id.as_str(), tail), ("1f", 100)),
        other => panic!("{other:?}"),
    }
    assert!(matches!(plan(Some("1f"), false, Some(0)), JobsPlan::Show { tail: 0, .. }));
    let reply = remote(&[], None).bash_jobs(Ok("x".to_string())).unwrap();
    assert_eq!((reply.text.as_str(), reply.is_error), ("x", false));
    let e = remote(&[], None).bash_jobs(Err(ShellError::NoJob { id: "9".to_string() })).unwrap_err();
    assert_eq!((e.fault, e.message.as_str()), (Fault::InvalidParams, "no job 9"));
}

#[test]
fn stopping_comes_before_showing() {
    let remote = remote(&[], None);
    let (group, plan) = remote.after_stop("1f".to_string(), 7, Ok(-42)).unwrap();
    assert_eq!(group, -42);
    match plan {
        JobsPlan::Show { id, tail } => assert_eq!((id.as_str(), tail), ("1f", 7)),
        other => panic!("{other:?}"),
    }
    let e = remote.after_stop("9".to_string(), 7, Err(ShellError::NoJob { id: "9".to_string() })).unwrap_err();
    assert_eq!((e.fault, e.message.as_str()), (Fault::InvalidParams, "no job 9"));
}

#[test]
fn what_a_client_is_told() {
    let told = remote(&["/a", "/b"], Some(b" box\n")).get_info();
    assert_eq!(
        told,
        "You are working on the machine `box`, not on the one the client runs on. \
         The platform, working directory and shell in your environment describe the machine \
         the client runs on; ignore them when asked where you are or what you are working on. \
         Your working directory is /w on `box`. \
         read, edit, write and bash are the remote forms of Read, Edit, Write and Bash: \
         same parameters, same results. Use them for all file and shell work; the local \
         file and shell tools are turned off. Every path is a path on `box`; the file \
         tools work under /a, /b."
    );
    assert!(remote(&[], None).get_info().starts_with("You are working on the machine `remote`, "));
    assert!(remote(&[], Some(b" \n")).get_info().contains("on `remote`."));
    assert!(remote(&[], Some(b"b\xff")).get_info().contains("on `b\u{fffd}`."));
    assert!(remote(&[], None).get_info().ends_with("; the file tools work under anywhere."));
}
