use remote_tools::clip::{
    answer, connection, fetch, is_shim, output_status, real_xclip, target_of, token_line, want, Answer, Fetch,
    Reply, Want, MAX_IMAGE,
};

fn args(s: &[&str]) -> Vec<Vec<u8>> {
    s.iter().map(|a| a.as_bytes().to_vec()).collect()
}

fn png(rest: &[u8]) -> Vec<u8> {
    let mut image = b"\x89PNG\r\n\x1a\n".to_vec();
    image.extend_from_slice(rest);
    image
}

#[test]
fn reads_the_target() {
    assert_eq!(target_of(&args(&["-selection", "clipboard", "-t", "TARGETS", "-o"])).as_deref(), Some("TARGETS"));
    assert_eq!(target_of(&args(&["-selection", "clipboard", "-o"])), None);
}

#[test]
fn the_first_target_counts() {
    assert_eq!(target_of(&args(&["-target", "a", "-t", "b"])).as_deref(), Some("a"));
    assert_eq!(target_of(&args(&["-t", "-t", "b"])).as_deref(), Some("-t"));
    assert_eq!(target_of(&args(&["-o", "-t"])), None);
    assert_eq!(target_of(&vec![b"-t".to_vec(), b"a\xffb".to_vec()]).as_deref(), Some("a\u{fffd}b"));
}

#[test]
fn what_is_asked_for() {
    assert_eq!(want(&args(&["-selection", "clipboard", "-t", "TARGETS", "-o"])), Want::Targets);
    assert_eq!(want(&args(&["-out", "-target", "image/png"])), Want::Image);
    assert_eq!(want(&args(&["-t", "image/png"])), Want::Other);
    assert_eq!(want(&args(&["-t", "text/plain", "-o"])), Want::Other);
    assert_eq!(want(&args(&["-o"])), Want::Other);
    assert_eq!(want(&args(&["-t", "targets", "-o"])), Want::Other);
}

#[test]
fn the_connection_file() {
    assert_eq!(connection(" 4711\ttoken more\n"), Some((4711, "token".to_string())));
    assert_eq!(connection("+80 t"), Some((80, "t".to_string())));
    assert_eq!(connection("65536 t"), None);
    assert_eq!(connection("80"), None);
    assert_eq!(connection("port token"), None);
    assert_eq!(connection(""), None);
    assert_eq!(token_line("secret"), "secret\n");
}

#[test]
fn only_a_png_is_an_image() {
    assert!(matches!(fetch(Reply::NotConnected), Fetch::NotConnected));
    assert!(matches!(fetch(Reply::Failed), Fetch::NoImage));
    assert!(matches!(fetch(Reply::Data(Vec::new())), Fetch::NoImage));
    assert!(matches!(fetch(Reply::Data(b"\x89PNG\r\n\x1a".to_vec())), Fetch::NoImage));
    assert!(matches!(fetch(Reply::Data(b"GIF89a..".to_vec())), Fetch::NoImage));
    match fetch(Reply::Data(png(b"data"))) {
        Fetch::Image(image) => assert_eq!(image, png(b"data")),
        other => panic!("{other:?}"),
    }
}

#[test]
fn an_image_has_a_largest_size() {
    let mut image = png(b"");
    image.resize(MAX_IMAGE, 0);
    assert!(matches!(fetch(Reply::Data(image.clone())), Fetch::Image(_)));
    image.push(0);
    assert!(matches!(fetch(Reply::Data(image)), Fetch::NoImage));
    assert_eq!(MAX_IMAGE, 64 << 20);
}

#[test]
fn answers() {
    let output = |a: Answer| match a {
        Answer::Output(b) => b,
        other => panic!("{other:?}"),
    };
    assert_eq!(output(answer(Want::Targets, Fetch::Image(png(b"x")))), b"image/png\n".to_vec());
    assert_eq!(output(answer(Want::Image, Fetch::Image(png(b"x")))), png(b"x"));
    assert!(matches!(answer(Want::Image, Fetch::NoImage), Answer::Nothing));
    assert!(matches!(answer(Want::Targets, Fetch::NotConnected), Answer::RealXclip));
    assert!(matches!(answer(Want::Other, Fetch::Image(png(b"x"))), Answer::RealXclip));
}

#[test]
fn statuses_of_xclip() {
    assert_eq!(output_status(true), 0);
    assert_eq!(output_status(false), 1);
    assert_eq!(real_xclip(), 1);
}

#[test]
fn a_shim_leads_to_the_program() {
    assert!(is_shim(&Some(b"/usr/local/bin/rtools".to_vec()), "rtools"));
    assert!(!is_shim(&Some(b"/usr/bin/xclip".to_vec()), "rtools"));
    assert!(!is_shim(&Some(b"/opt/rtools/xclip".to_vec()), "rtools"));
    assert!(!is_shim(&None, "rtools"));
}
