//! `xclip`, as far as it is used to paste an image, answered from the clipboard of the machine that
//! the user connects from. A forwarded loopback port leads to a responder there; the port and a
//! token stand in a file. What is asked first is whether the clipboard holds an image (the target
//! `TARGETS`), and then the image (`image/png`). Anything else goes to the real `xclip`.

use vstd::prelude::*;
use vstd::utf8::*;

use crate::bytes;
use crate::link;
use crate::text;

verus! {

/// A clipboard image larger than this many bytes is refused.
pub const MAX_IMAGE: usize = 67_108_864;

/// What a PNG image begins with.
pub open spec fn png_magic() -> Seq<u8> {
    seq![0x89, 0x50, 0x4e, 0x47, 0x0d, 0x0a, 0x1a, 0x0a]
}

/// Whether an argument is one of these two.
pub open spec fn is_either(arg: Seq<u8>, a: Seq<char>, b: Seq<char>) -> bool {
    arg == encode_utf8(a) || arg == encode_utf8(b)
}

/// The place of the first `-t` or `-target`; the number of arguments when there is none.
pub open spec fn target_flag(args: Seq<Seq<u8>>) -> nat
    decreases args.len(),
{
    if args.len() == 0 || is_either(args[0], "-t"@, "-target"@) {
        0
    } else {
        1 + target_flag(args.skip(1))
    }
}

/// The argument behind the first `-t` or `-target`.
pub open spec fn target(args: Seq<Seq<u8>>) -> Option<Seq<char>> {
    if target_flag(args) + 1 < args.len() {
        Some(bytes::shown(args[target_flag(args) as int + 1]))
    } else {
        None
    }
}

/// Whether the clipboard is to be written out: `-o` or `-out` is among the arguments.
pub open spec fn wants_output(args: Seq<Seq<u8>>) -> bool {
    exists|i: int| 0 <= i < args.len() && is_either(#[trigger] args[i], "-o"@, "-out"@)
}

/// What a call asks for.
#[derive(Debug, Clone, Copy, PartialEq, Eq, Structural)]
pub enum Want {
    /// Whether the clipboard holds an image.
    Targets,
    /// The image.
    Image,
    /// Something for the real `xclip`.
    Other,
}

/// What a call with these arguments asks for.
pub open spec fn wanted(args: Seq<Seq<u8>>) -> Want {
    if !wants_output(args) {
        Want::Other
    } else if target(args) == Some("TARGETS"@) {
        Want::Targets
    } else if target(args) == Some("image/png"@) {
        Want::Image
    } else {
        Want::Other
    }
}

fn is_one_of(arg: &Vec<u8>, a: &str, b: &str) -> (r: bool)
    ensures
        r == is_either(arg@, a@, b@),
{
    bytes::same(arg.as_slice(), a.as_bytes()) || bytes::same(arg.as_slice(), b.as_bytes())
}

/// The value of `-t` or `-target`.
pub fn target_of(args: &Vec<Vec<u8>>) -> (r: Option<String>)
    ensures
        text::opt_owned(r) == target(bytes::views(args@)),
{
    let ghost all = bytes::views(args@);
    let mut i: usize = 0;
    assert(all.skip(0) =~= all);
    while i < args.len()
        invariant
            i <= args@.len(),
            all == bytes::views(args@),
            target_flag(all) == i + target_flag(all.skip(i as int)),
        decreases args@.len() - i,
    {
        assert(all[i as int] == args@[i as int]@);
        if is_one_of(&args[i], "-t", "-target") {
            assert(target_flag(all) == i);
            if i + 1 < args.len() {
                assert(all[i + 1] == args@[i + 1]@);
                return Some(bytes::lossy(args[i + 1].as_slice()));
            }
            return None;
        }
        assert(all.skip(i as int).skip(1) =~= all.skip(i + 1));
        i += 1;
    }
    None
}

/// What a call with these arguments asks for.
pub fn want(args: &Vec<Vec<u8>>) -> (r: Want)
    ensures
        r == wanted(bytes::views(args@)),
{
    let ghost all = bytes::views(args@);
    let mut output = false;
    let mut i: usize = 0;
    while i < args.len()
        invariant
            i <= args@.len(),
            all == bytes::views(args@),
            output == exists|k: int| 0 <= k < i && is_either(#[trigger] all[k], "-o"@, "-out"@),
        decreases args@.len() - i,
    {
        assert(all[i as int] == args@[i as int]@);
        if is_one_of(&args[i], "-o", "-out") {
            output = true;
        }
        i += 1;
    }
    proof {
        reveal_strlit("TARGETS");
        reveal_strlit("image/png");
        assert("TARGETS"@.len() != "image/png"@.len());
    }
    if !output {
        return Want::Other;
    }
    match target_of(args) {
        Some(t) => if text::same(t.as_str(), "TARGETS") {
            Want::Targets
        } else if text::same(t.as_str(), "image/png") {
            Want::Image
        } else {
            Want::Other
        },
        None => Want::Other,
    }
}

/// The port and token from the text of the connection file.
pub fn connection(content: &str) -> (r: Option<(u16, String)>)
    ensures
        match (r, link::port_and_token(content@)) {
            (Some((port, token)), Some((p, t))) => port == p && token@ == t,
            (None, None) => true,
            _ => false,
        },
{
    link::read_port_and_token(content)
}

/// The line that asks the responder for the image.
pub fn token_line(token: &str) -> (r: String)
    ensures
        r@ == token@ + "\n"@,
{
    let mut out = token.to_owned();
    out.append("\n");
    out
}

/// What came from the responder.
#[derive(Debug)]
pub enum Reply {
    /// No connection is recorded, or the recorded one does not accept.
    NotConnected,
    /// The exchange failed.
    Failed,
    /// All that it sent, or one byte more than an image may have.
    Data(Vec<u8>),
}

/// What the clipboard of the other machine holds.
#[derive(Debug)]
pub enum Fetch {
    /// No clipboard is forwarded here.
    NotConnected,
    /// One is, and it holds no image, or the answer was unusable.
    NoImage,
    Image(Vec<u8>),
}

/// Whether these bytes are taken for an image: not too many, and they begin as a PNG image does.
pub open spec fn is_image(b: Seq<u8>) -> bool {
    b.len() <= MAX_IMAGE && b.len() >= 8 && b.take(8) == png_magic()
}

/// The image on the other machine's clipboard, by what came from there.
pub open spec fn fetched(reply: Reply) -> Fetch {
    match reply {
        Reply::NotConnected => Fetch::NotConnected,
        Reply::Failed => Fetch::NoImage,
        Reply::Data(b) => if is_image(b@) {
            Fetch::Image(b)
        } else {
            Fetch::NoImage
        },
    }
}

/// The image on the other machine's clipboard, by what came from there.
pub fn fetch(reply: Reply) -> (r: Fetch)
    ensures
        r == fetched(reply),
{
    let magic: [u8; 8] = [0x89, 0x50, 0x4e, 0x47, 0x0d, 0x0a, 0x1a, 0x0a];
    assert(magic@ =~= png_magic());
    match reply {
        Reply::NotConnected => Fetch::NotConnected,
        Reply::Failed => Fetch::NoImage,
        Reply::Data(b) => if b.len() <= MAX_IMAGE && bytes::begins_with(b.as_slice(), &magic) {
            Fetch::Image(b)
        } else {
            Fetch::NoImage
        },
    }
}

/// How a call is answered.
#[derive(Debug)]
pub enum Answer {
    /// By the real `xclip`.
    RealXclip,
    /// With status 1 and no output.
    Nothing,
    /// With these bytes.
    Output(Vec<u8>),
}

/// What an `Answer` says.
pub ghost enum Said {
    RealXclip,
    Nothing,
    Output(Seq<u8>),
}

impl View for Answer {
    type V = Said;

    open spec fn view(&self) -> Said {
        match *self {
            Answer::RealXclip => Said::RealXclip,
            Answer::Nothing => Said::Nothing,
            Answer::Output(out) => Said::Output(out@),
        }
    }
}

/// How a call is answered, by what it asks for and what the clipboard holds.
pub open spec fn answered(want: Want, held: Fetch) -> Said {
    match (want, held) {
        (Want::Other, _) => Said::RealXclip,
        (_, Fetch::NotConnected) => Said::RealXclip,
        (_, Fetch::NoImage) => Said::Nothing,
        (Want::Targets, Fetch::Image(_)) => Said::Output(encode_utf8("image/png\n"@)),
        (Want::Image, Fetch::Image(image)) => Said::Output(image@),
    }
}

/// How a call is answered, by what it asks for and what the clipboard holds.
pub fn answer(want: Want, held: Fetch) -> (r: Answer)
    ensures
        r@ == answered(want, held),
{
    match (want, held) {
        (Want::Other, _) => Answer::RealXclip,
        (_, Fetch::NotConnected) => Answer::RealXclip,
        (_, Fetch::NoImage) => Answer::Nothing,
        (Want::Targets, Fetch::Image(_)) => Answer::Output(
            vstd::slice::slice_to_vec("image/png\n".as_bytes()),
        ),
        (Want::Image, Fetch::Image(image)) => Answer::Output(image),
    }
}

/// Nothing but an image is pasted: output comes only when an image came from the other machine, and
/// it is that image, or the name of its kind where that was asked for.
pub proof fn only_images_are_pasted(args: Seq<Seq<u8>>, reply: Reply, out: Seq<u8>)
    requires
        answered(wanted(args), fetched(reply)) == Said::Output(out),
    ensures
        wants_output(args),
        reply matches Reply::Data(image) && is_image(image@) && (if target(args) == Some(
            "TARGETS"@,
        ) {
            out == encode_utf8("image/png\n"@)
        } else {
            target(args) == Some("image/png"@) && out == image@
        }),
{
}

/// The exit status of an answer with output, by whether it was written.
pub fn output_status(written: bool) -> (r: i32)
    ensures
        r == (if written {
            0i32
        } else {
            1i32
        }),
{
    if written {
        0
    } else {
        1
    }
}

/// The status of handing the call to the real `xclip` when that did not take over.
pub fn real_xclip() -> (r: i32)
    ensures
        r == 1,
{
    1
}

/// Whether a canonical path is that of this program, whose name is `program` and which stands under
/// the name `xclip` too.
pub fn is_shim(canonical: &Option<Vec<u8>>, program: &str) -> (r: bool)
    ensures
        r == link::ours(link::opt_bytes(*canonical), program@),
{
    link::is_this_program(canonical, program)
}

} // verus!
