use remote_tools::cli::{cli_step, invoked_as, CliStep, Invocation, Settings};

fn args(s: &[&str]) -> Vec<String> {
    s.iter().map(|a| a.to_string()).collect()
}

/// Takes all options, with each directory as its own canonical path; `None` for a call that cannot
/// be understood.
fn settings(s: &[&str]) -> Option<Settings> {
    let args = args(s);
    let (first, mut at) = cli_step(&args, 0);
    if !matches!(first, CliStep::Serve) {
        return None;
    }
    let mut out = Settings::new(b"/start".to_vec());
    loop {
        let (step, next) = cli_step(&args, at);
        at = next;
        match &step {
            CliStep::Root { dir } | CliStep::Cwd { dir } => {
                let dir = dir.clone().into_bytes();
                out.apply(&step, dir);
            }
            CliStep::End => return Some(out.finish(b"/start".to_vec())),
            CliStep::Usage | CliStep::Serve => return None,
        }
    }
}

#[test]
fn names_of_the_program() {
    assert_eq!(invoked_as(Some(b"/home/me/bin/xclip")), Invocation::Xclip);
    assert_eq!(invoked_as(Some(b"open")), Invocation::Open);
    assert_eq!(invoked_as(Some(b"./xdg-open")), Invocation::XdgOpen);
    assert_eq!(invoked_as(Some(b"/bin/rtools")), Invocation::Server);
    assert_eq!(invoked_as(Some(b"/bin/xclip/..")), Invocation::Server);
    assert_eq!(invoked_as(Some(b"\xff")), Invocation::Server);
    assert_eq!(invoked_as(None), Invocation::Server);
}

#[test]
fn options_of_the_server() {
    let s = settings(&["serve", "--root", "/a", "--cwd", "/w", "--root", "/b", "--cwd", "/x"]).unwrap();
    assert_eq!(s.roots, [b"/a".to_vec(), b"/b".to_vec()]);
    assert_eq!(s.cwd, b"/x".to_vec());
}

#[test]
fn without_roots_the_start_is_served() {
    let s = settings(&["serve", "--cwd", "/w"]).unwrap();
    assert_eq!(s.roots, [b"/start".to_vec()]);
    assert_eq!(s.cwd, b"/w".to_vec());
    assert_eq!(settings(&["serve"]).unwrap().cwd, b"/start".to_vec());
}

#[test]
fn calls_that_cannot_be_understood() {
    assert!(settings(&[]).is_none());
    assert!(settings(&["--root", "/a"]).is_none());
    assert!(settings(&["serve", "--root"]).is_none());
    assert!(settings(&["serve", "--port", "1"]).is_none());
    assert!(settings(&["serve", "--root", "/a", "extra"]).is_none());
}
