//! `open` and `xdg-open`, for files: each one is copied to the machine that the user connects from
//! and opened there. That machine decides what it will open; this side only sends. URLs are
//! refused, and so is everything while no connection is open, except that `xdg-open` then goes to
//! the real one.

use vstd::prelude::*;
use vstd::utf8::*;

use crate::bytes;
use crate::number;
use crate::path;
use crate::text;

verus! {

/// Files with more bytes are refused.
pub const MAX_FILE: u64 = 104_857_600;

/// Why nothing can be opened while no connection is.
pub open spec fn not_connected() -> Seq<char> {
    "no rclaude connection is open to the machine you ssh in from"@
}

/// Whether a call cannot be understood: it names no file, or an option.
pub open spec fn misused(args: Seq<Seq<u8>>) -> bool {
    args.len() == 0 || exists|i: int|
        0 <= i < args.len() && (#[trigger] args[i]).len() > 0 && args[i][0] == 45
}

/// Whether a call cannot be understood: it names no file, or an option.
pub fn is_misused(args: &Vec<Vec<u8>>) -> (r: bool)
    ensures
        r == misused(bytes::views(args@)),
{
    let ghost all = bytes::views(args@);
    let mut i: usize = 0;
    while i < args.len()
        invariant
            i <= args@.len(),
            all == bytes::views(args@),
            forall|k: int| 0 <= k < i ==> !((#[trigger] all[k]).len() > 0 && all[k][0] == 45),
        decreases args@.len() - i,
    {
        assert(all[i as int] == args@[i as int]@);
        if args[i].len() > 0 && args[i][0] == 45 {
            return true;
        }
        i += 1;
    }
    args.len() == 0
}

/// What is said of a call that cannot be understood.
pub fn usage(name: &str) -> (r: String)
    ensures
        r@ == "usage: "@ + name@
            + " <file>...  (opens each file on the machine you ssh in from)"@,
{
    let mut out = "usage: ".to_owned();
    out.append(name);
    out.append(" <file>...  (opens each file on the machine you ssh in from)");
    out
}

/// Whether `pat` stands somewhere in `s`.
pub open spec fn holds(s: Seq<u8>, pat: Seq<u8>) -> bool {
    exists|i: int| #[trigger] stands_at(s, i, pat)
}

/// Whether `pat` stands in `s` at `i`.
pub open spec fn stands_at(s: Seq<u8>, i: int, pat: Seq<u8>) -> bool {
    0 <= i && i + pat.len() <= s.len() && s.subrange(i, i + pat.len()) == pat
}

/// Whether an argument is a URL: it holds `://` or begins with `mailto:`.
pub open spec fn is_url(arg: Seq<u8>) -> bool {
    holds(arg, encode_utf8("://"@)) || stands_at(arg, 0, encode_utf8("mailto:"@))
}

fn looks_like_url(arg: &[u8]) -> (r: bool)
    ensures
        r == is_url(arg@),
{
    let mark = "://".as_bytes();
    let mail = "mailto:".as_bytes();
    let ghost m = encode_utf8("://"@);
    assert(arg@.len() >= mail@.len() ==> arg@.subrange(0, mail@.len() as int) =~= arg@.take(
        mail@.len() as int,
    ));
    if bytes::begins_with(arg, mail) {
        assert(stands_at(arg@, 0, encode_utf8("mailto:"@)));
        return true;
    }
    let mut i: usize = 0;
    proof {
        reveal_strlit("://");
        is_ascii_chars_encode_utf8("://"@);
    }
    while i < arg.len() && mark.len() <= arg.len() - i
        invariant
            i <= arg@.len(),
            mark@ == m,
            m == encode_utf8("://"@),
            m.len() > 0,
            forall|k: int| 0 <= k < i ==> !(#[trigger] stands_at(arg@, k, m)),
        decreases arg@.len() - i,
    {
        let tail = vstd::slice::slice_subrange(arg, i, arg.len());
        assert(tail@.take(m.len() as int) =~= arg@.subrange(i as int, i + m.len()));
        if bytes::begins_with(tail, mark) {
            assert(stands_at(arg@, i as int, m));
            return true;
        }
        assert(!stands_at(arg@, i as int, m));
        i += 1;
    }
    assert(!holds(arg@, m));
    false
}

/// A text without line breaks: an underscore stands for each line feed and carriage return.
pub open spec fn on_one_line(s: Seq<char>) -> Seq<char> {
    s.map_values(
        |c: char|
            if c == '\n' || c == '\r' {
                '_'
            } else {
                c
            },
    )
}

/// The name that a file is sent under.
pub open spec fn sent_name(p: Seq<u8>) -> Seq<char> {
    match path::file_name(p) {
        Some(name) => on_one_line(bytes::shown(name)),
        None => Seq::empty(),
    }
}

/// The name that a file is sent under.
pub fn name_to_send(p: &[u8]) -> (r: String)
    ensures
        r@ == sent_name(p@),
{
    let mut out = String::new();
    match path::file_name_of(p) {
        None => out,
        Some(name) => {
            let shown = bytes::lossy(name.as_slice());
            let cs = text::chars_of(shown.as_str());
            let ghost all = on_one_line(shown@);
            let mut i: usize = 0;
            assert(out@ =~= all.take(0));
            while i < cs.len()
                invariant
                    i <= cs@.len(),
                    cs@ == shown@,
                    all == on_one_line(shown@),
                    out@ == all.take(i as int),
                decreases cs@.len() - i,
            {
                let c = if cs[i] == '\n' || cs[i] == '\r' {
                    '_'
                } else {
                    cs[i]
                };
                out.push(c);
                assert(all.take(i + 1) =~= all.take(i as int).push(c));
                i += 1;
            }
            assert(all.take(i as int) =~= all);
            out
        },
    }
}

/// What was learnt last on the way to opening a file.
#[derive(Debug)]
pub enum Seen {
    /// Nothing yet.
    Start,
    /// What stands at the path.
    Meta { is_file: bool, len: u64 },
    /// The content, with this many bytes.
    Body { size: usize },
    /// No connection took the request.
    NotConnected,
    /// The line that the other machine replied.
    Reply { line: String },
    /// Something failed, for this reason.
    Failed { reason: String },
}

/// What to do next to open a file.
#[derive(Debug)]
pub enum Step {
    /// Look what stands at the path.
    Look,
    /// Read the file.
    Read,
    /// Send a request with this verb, and the content.
    Send { verb: String },
    /// It is open, and this is to be said.
    Opened { note: String },
    /// It cannot be opened, for this reason.
    Refuse { reason: String },
}

/// What a `Step` says.
pub ghost enum Move {
    Look,
    Read,
    Send { verb: Seq<char> },
    Opened { note: Seq<char> },
    Refuse { reason: Seq<char> },
}

impl View for Step {
    type V = Move;

    open spec fn view(&self) -> Move {
        match *self {
            Step::Look => Move::Look,
            Step::Read => Move::Read,
            Step::Send { verb } => Move::Send { verb: verb@ },
            Step::Opened { note } => Move::Opened { note: note@ },
            Step::Refuse { reason } => Move::Refuse { reason: reason@ },
        }
    }
}

/// The verb of a request to open a file: its length and its name.
pub open spec fn open_verb(p: Seq<u8>, len: nat) -> Seq<char> {
    "open "@ + number::decimal(len) + " "@ + sent_name(p)
}

/// What the reply to a request says: `ok` and where the copy was saved, or `error` and why not;
/// any other reply is none.
pub open spec fn heard(p: Seq<u8>, line: Seq<char>) -> Move {
    let said = text::trim_end(line);
    let n = text::first_at(said, ' ') as int;
    let (word, rest) = (said.take(n), said.skip(n + 1));
    if n < said.len() && word == "ok"@ {
        Move::Opened {
            note: "Opened "@ + sent_name(p) + " on the other machine, saved as "@ + rest,
        }
    } else if n < said.len() && word == "error"@ {
        Move::Refuse { reason: rest }
    } else {
        Move::Refuse {
            reason: "the other machine did not answer; is rclaude still connected?"@,
        }
    }
}

/// What to do next to open the file at `p`, by what was learnt last.
pub open spec fn next_move(p: Seq<u8>, seen: Seen) -> Move {
    match seen {
        Seen::Start => if is_url(p) {
            Move::Refuse { reason: "only files are opened on the other machine, not URLs"@ }
        } else {
            Move::Look
        },
        Seen::Meta { is_file, len } => if !is_file {
            Move::Refuse { reason: "not a file"@ }
        } else if len > MAX_FILE {
            Move::Refuse { reason: "larger than 100 MB"@ }
        } else {
            Move::Read
        },
        Seen::Body { size } => Move::Send { verb: open_verb(p, size as nat) },
        Seen::NotConnected => Move::Refuse { reason: not_connected() },
        Seen::Reply { line } => heard(p, line@),
        Seen::Failed { reason } => Move::Refuse { reason: reason@ },
    }
}

/// What the reply to a request says.
fn hear(p: &[u8], line: &str) -> (r: Step)
    ensures
        r@ == heard(p@, line@),
{
    let said = text::trimmed_end(line);
    let cs = text::chars_of(said.as_str());
    assert(cs@.skip(0) =~= cs@);
    let n = text::find_char(cs.as_slice(), 0, ' ');
    if n < cs.len() {
        let word = text::string_of(cs.as_slice(), 0, n);
        let rest = text::string_of(cs.as_slice(), n + 1, cs.len());
        assert(word@ =~= said@.take(n as int));
        assert(rest@ =~= said@.skip(n + 1));
        if text::same(word.as_str(), "ok") {
            let name = name_to_send(p);
            let mut note = "Opened ".to_owned();
            note.append(name.as_str());
            note.append(" on the other machine, saved as ");
            note.append(rest.as_str());
            return Step::Opened { note };
        }
        if text::same(word.as_str(), "error") {
            return Step::Refuse { reason: rest };
        }
    }
    Step::Refuse {
        reason: "the other machine did not answer; is rclaude still connected?".to_owned(),
    }
}

/// What to do next to open the file at `p`, by what was learnt last.
pub fn open(p: &[u8], seen: &Seen) -> (r: Step)
    ensures
        r@ == next_move(p@, *seen),
{
    match seen {
        Seen::Start => if looks_like_url(p) {
            Step::Refuse {
                reason: "only files are opened on the other machine, not URLs".to_owned(),
            }
        } else {
            Step::Look
        },
        Seen::Meta { is_file, len } => if !*is_file {
            Step::Refuse { reason: "not a file".to_owned() }
        } else if *len > MAX_FILE {
            Step::Refuse { reason: "larger than 100 MB".to_owned() }
        } else {
            Step::Read
        },
        Seen::Body { size } => {
            let digits = number::write_decimal(*size as u128);
            let name = name_to_send(p);
            let mut verb = "open ".to_owned();
            verb.append(digits.as_str());
            verb.append(" ");
            verb.append(name.as_str());
            Step::Send { verb }
        },
        Seen::NotConnected => Step::Refuse {
            reason: "no rclaude connection is open to the machine you ssh in from".to_owned(),
        },
        Seen::Reply { line } => hear(p, line.as_str()),
        Seen::Failed { reason } => Step::Refuse { reason: reason.clone() },
    }
}

/// What follows when a file was opened or refused.
#[derive(Debug)]
pub enum After {
    /// The whole call goes to the real program.
    RunReal,
    /// The next file, with this exit status so far; this is to be said first.
    Next { status: i32, complaint: Option<String> },
}

/// Whether a call under this name goes to the real program upon this outcome of a file.
pub open spec fn goes_to_real(name: Seq<char>, refused: Option<Seq<char>>) -> bool {
    refused == Some(not_connected()) && name == "xdg-open"@
}

/// The complaint about a file that was refused.
pub open spec fn complaint(name: Seq<char>, arg: Seq<u8>, reason: Seq<char>) -> Seq<char> {
    name + ": "@ + bytes::shown(arg) + ": "@ + reason
}

/// What follows when the file `arg` was opened, or refused for a reason, with the exit status so
/// far: a refusal is complained about and makes the status 1.
pub fn after_file(name: &str, arg: &[u8], refused: Option<&str>, status: i32) -> (r: After)
    ensures
        match r {
            After::RunReal => goes_to_real(name@, text::opt(refused)),
            After::Next { status: now, complaint: said } => {
                &&& !goes_to_real(name@, text::opt(refused))
                &&& match refused {
                    Some(reason) => now == 1 && text::opt_owned(said) == Some(
                        complaint(name@, arg@, reason@),
                    ),
                    None => now == status && said is None,
                }
            },
        },
{
    match refused {
        None => After::Next { status, complaint: None },
        Some(reason) => {
            if text::same(
                reason,
                "no rclaude connection is open to the machine you ssh in from",
            ) && text::same(name, "xdg-open") {
                return After::RunReal;
            }
            let mut said = name.to_owned();
            let shown = bytes::lossy(arg);
            said.append(": ");
            said.append(shown.as_str());
            said.append(": ");
            said.append(reason);
            After::Next { status: 1, complaint: Some(said) }
        },
    }
}

/// The exit status after all files, one after another, by the reasons of those that were refused;
/// `None` when the call goes to the real program.
pub open spec fn status_after(name: Seq<char>, refused: Seq<Option<Seq<char>>>) -> Option<int>
    decreases refused.len(),
{
    if refused.len() == 0 {
        Some(0)
    } else {
        match status_after(name, refused.drop_last()) {
            None => None,
            Some(status) => if goes_to_real(name, refused.last()) {
                None
            } else if refused.last() is Some {
                Some(1)
            } else {
                Some(status)
            },
        }
    }
}

/// The exit status is 0 exactly when every file was opened, and 1 when one was refused; a call goes
/// to the real program exactly when it is one of `xdg-open` and no connection was open for a file.
pub proof fn status_tells_refusals(name: Seq<char>, refused: Seq<Option<Seq<char>>>)
    ensures
        match status_after(name, refused) {
            Some(status) => {
                &&& status == 0 || status == 1
                &&& status == 0 <==> forall|i: int|
                    0 <= i < refused.len() ==> (#[trigger] refused[i]) is None
                &&& forall|i: int|
                    0 <= i < refused.len() ==> !goes_to_real(name, #[trigger] refused[i])
            },
            None => exists|i: int|
                0 <= i < refused.len() && goes_to_real(name, #[trigger] refused[i]),
        },
    decreases refused.len(),
{
    if refused.len() > 0 {
        let front = refused.drop_last();
        let n = front.len() as int;
        status_tells_refusals(name, front);
        assert(refused[n] == refused.last());
        assert(forall|i: int| 0 <= i < n ==> (#[trigger] refused[i]) == front[i]);
        match status_after(name, front) {
            None => {
                let i = choose|i: int|
                    0 <= i < front.len() && goes_to_real(name, #[trigger] front[i]);
                assert(goes_to_real(name, refused[i]));
            },
            Some(status) => {
                assert(status == 0 ==> forall|i: int|
                    0 <= i < n ==> (#[trigger] refused[i]) is None);
                if status != 0 {
                    let i = choose|i: int| 0 <= i < front.len() && (#[trigger] front[i]) is Some;
                    assert(refused[i] is Some);
                }
            },
        }
    }
}

/// A request to open a file is one line: no line break stands in the name that is sent.
pub proof fn sent_name_is_one_line(p: Seq<u8>)
    ensures
        !sent_name(p).contains('\n'),
        !sent_name(p).contains('\r'),
{
}

} // verus!
