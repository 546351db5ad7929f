//! Laws of opening files on the other machine.

use vstd::prelude::*;
use vstd::utf8::*;

use crate::bytes;
use crate::number;
use crate::open;
use crate::path;
use crate::text;

verus! {

/// A call is misused exactly when it has no arguments, or one begins with a dash.
pub proof fn misuse_is_no_file_or_an_option(args: Seq<Seq<u8>>, rest: Seq<u8>, i: int)
    ensures
        open::misused(Seq::empty()),
        0 <= i < args.len() && args[i] == seq![45u8] + rest ==> open::misused(args),
        open::misused(args) && args.len() > 0 ==> exists|k: int|
            0 <= k < args.len() && (#[trigger] args[k]).len() > 0 && args[k][0] == 45,
{
    if 0 <= i < args.len() && args[i] == seq![45u8] + rest {
        assert(args[i].len() > 0 && args[i][0] == 45);
    }
}

/// Whether bytes are these three one behind the other.
pub open spec fn is_made_of(arg: Seq<u8>, before: Seq<u8>, mark: Seq<u8>, after: Seq<u8>) -> bool {
    arg == before + mark + after
}

/// An argument is a URL exactly when it begins with `mailto:`, or `://` stands somewhere in it.
pub proof fn urls_hold_their_mark(arg: Seq<u8>)
    ensures
        open::is_url(arg) <==> {
            ||| exists|before: Seq<u8>, after: Seq<u8>|
                #[trigger] is_made_of(arg, before, encode_utf8("://"@), after)
            ||| exists|after: Seq<u8>|
                #[trigger] is_made_of(arg, Seq::empty(), encode_utf8("mailto:"@), after)
        },
{
    let (mark, mail, none) = (encode_utf8("://"@), encode_utf8("mailto:"@), Seq::<u8>::empty());
    if open::holds(arg, mark) {
        let i = choose|i: int| #[trigger] open::stands_at(arg, i, mark);
        let (before, after) = (arg.take(i), arg.skip(i + mark.len()));
        assert(before + arg.subrange(i, i + mark.len()) + after =~= arg);
        assert(is_made_of(arg, before, mark, after));
    }
    if open::stands_at(arg, 0, mail) {
        let after = arg.skip(mail.len() as int);
        assert(none + arg.subrange(0, mail.len() as int) + after =~= arg);
        assert(is_made_of(arg, none, mail, after));
    }
    if exists|before: Seq<u8>, after: Seq<u8>| #[trigger] is_made_of(arg, before, mark, after) {
        let (before, after) = choose|before: Seq<u8>, after: Seq<u8>|
            #[trigger] is_made_of(arg, before, mark, after);
        let i = before.len() as int;
        assert(arg.subrange(i, i + mark.len()) =~= mark);
        assert(open::stands_at(arg, i, mark));
    }
    if exists|after: Seq<u8>| #[trigger] is_made_of(arg, none, mail, after) {
        let after = choose|after: Seq<u8>| #[trigger] is_made_of(arg, none, mail, after);
        assert(arg.subrange(0, mail.len() as int) =~= mail);
    }
}

/// A file is sent under its name, character for character, but for the line breaks, for each of
/// which an underscore stands.
pub proof fn files_are_sent_under_their_name(dir: Seq<u8>, name: Seq<u8>, i: int)
    requires
        crate::laws::path::is_name(name),
        name != seq![46u8, 46u8],
    ensures
        ({
            let sent = open::sent_name(path::push(dir, name));
            let shown = bytes::shown(name);
            &&& sent.len() == shown.len()
            &&& 0 <= i < shown.len() && shown[i] != '\n' && shown[i] != '\r' ==> sent[i] == shown[i]
            &&& 0 <= i < shown.len() && (shown[i] == '\n' || shown[i] == '\r') ==> sent[i] == '_'
        }),
        open::sent_name(Seq::empty()) == Seq::<char>::empty(),
        open::sent_name(seq![47u8]) == Seq::<char>::empty(),
{
    crate::laws::path::file_names_are_last_components(dir, name);
}

/// A file is looked at, read and sent, in this order, and no further once something is wrong with
/// it: a URL, no file, or more than 100 MB. The request names how many bytes follow, and the file.
pub proof fn files_are_looked_at_read_and_sent(
    p: Seq<u8>,
    is_file: bool,
    len: u64,
    size: usize,
    reason: String,
)
    ensures
        open::next_move(p, open::Seen::Start) == (if open::is_url(p) {
            open::Move::Refuse { reason: "only files are opened on the other machine, not URLs"@ }
        } else {
            open::Move::Look
        }),
        !is_file ==> open::next_move(p, open::Seen::Meta { is_file, len }) == (open::Move::Refuse {
            reason: "not a file"@,
        }),
        is_file && len > 104_857_600 ==> open::next_move(p, open::Seen::Meta { is_file, len }) == (
        open::Move::Refuse { reason: "larger than 100 MB"@ }),
        is_file && len <= 104_857_600 ==> open::next_move(p, open::Seen::Meta { is_file, len })
            == open::Move::Read,
        open::next_move(p, open::Seen::Body { size }) == (open::Move::Send {
            verb: "open "@ + number::decimal(size as nat) + " "@ + open::sent_name(p),
        }),
        open::next_move(p, open::Seen::NotConnected) == (open::Move::Refuse {
            reason: "no rclaude connection is open to the machine you ssh in from"@,
        }),
        open::next_move(p, open::Seen::Failed { reason }) == (open::Move::Refuse {
            reason: reason@,
        }),
{
}

/// The other machine's reply is `ok` and where the copy is, or `error` and why there is none,
/// behind a space each; any other reply, and none, is no answer. White space at its end does not
/// count.
pub proof fn replies_are_ok_or_error(
    p: Seq<u8>,
    line: String,
    word: Seq<char>,
    rest: Seq<char>,
    after: Seq<char>,
)
    requires
        !word.contains(' '),
        crate::laws::text::blank(after),
        rest.len() > 0,
        !text::white_space(rest.last()),
        line@ == word.push(' ') + rest + after,
    ensures
        open::next_move(p, open::Seen::Reply { line }) == (if word == "ok"@ {
            open::Move::Opened {
                note: "Opened "@ + open::sent_name(p) + " on the other machine, saved as "@ + rest,
            }
        } else if word == "error"@ {
            open::Move::Refuse { reason: rest }
        } else {
            open::Move::Refuse {
                reason: "the other machine did not answer; is rclaude still connected?"@,
            }
        }),
{
    let said = word.push(' ') + rest;
    crate::laws::text::trim_end_of(said, after);
    assert forall|i: int| 0 <= i < word.len() implies said[i] != ' ' by {
        assert(word.contains(word[i]));
    }
    text::lemma_first_at_is(said, ' ', word.len() as int);
    assert(said.take(word.len() as int) =~= word);
    assert(said.skip(word.len() as int + 1) =~= rest);
    reveal_strlit("ok");
    reveal_strlit("error");
    assert("ok"@.len() != "error"@.len());
}

/// A reply without a space is no answer.
pub proof fn replies_without_a_space_are_none(
    p: Seq<u8>,
    line: String,
    word: Seq<char>,
    after: Seq<char>,
)
    requires
        !word.contains(' '),
        word.len() > 0 ==> !text::white_space(word.last()),
        crate::laws::text::blank(after),
        line@ == word + after,
    ensures
        open::next_move(p, open::Seen::Reply { line }) == (open::Move::Refuse {
            reason: "the other machine did not answer; is rclaude still connected?"@,
        }),
{
    crate::laws::text::trim_end_of(word, after);
    text::lemma_first_at_is(word, ' ', word.len() as int);
}

/// A complaint names the program, the argument and the reason. A call goes to the real program
/// exactly when it is one of `xdg-open` and no connection is open.
pub proof fn complaints_name_the_file(
    name: Seq<char>,
    arg: Seq<u8>,
    reason: Seq<char>,
)
    ensures
        open::complaint(name, arg, reason) == name + ": "@ + bytes::shown(arg) + ": "@ + reason,
        open::goes_to_real(name, Some(reason)) <==> name == "xdg-open"@ && reason
            == "no rclaude connection is open to the machine you ssh in from"@,
        !open::goes_to_real(name, None),
{
}

/// Each file adds to the status: a refusal makes it one, and a file that was opened leaves it.
pub proof fn statuses_add_up(
    name: Seq<char>,
    refused: Seq<Option<Seq<char>>>,
    last: Option<Seq<char>>,
)
    ensures
        open::status_after(name, Seq::empty()) == Some(0int),
        open::status_after(name, refused) is Some && !open::goes_to_real(name, last)
            ==> open::status_after(name, refused.push(last)) == (if last is Some {
            Some(1int)
        } else {
            open::status_after(name, refused)
        }),
        open::goes_to_real(name, last) ==> open::status_after(name, refused.push(last)) is None,
        open::status_after(name, refused) is None ==> open::status_after(name, refused.push(last))
            is None,
{
    assert(refused.push(last).drop_last() =~= refused);
}

/// A step says what it holds.
pub proof fn steps_say_what_they_hold(t: String)
    ensures
        open::Step::Look@ == open::Move::Look,
        open::Step::Read@ == open::Move::Read,
        (open::Step::Send { verb: t })@ == (open::Move::Send { verb: t@ }),
        (open::Step::Opened { note: t })@ == (open::Move::Opened { note: t@ }),
        (open::Step::Refuse { reason: t })@ == (open::Move::Refuse { reason: t@ }),
{
}

} // verus!
