//! Laws of the paste of an image.

use vstd::prelude::*;
use vstd::utf8::*;

use crate::bytes;
use crate::clip;

verus! {

/// Whether an argument is the one option or the other.
pub open spec fn is_option(arg: Seq<u8>, short: Seq<char>, long: Seq<char>) -> bool {
    arg == encode_utf8(short) || arg == encode_utf8(long)
}

/// The target is the argument behind the first option that asks for one, and there is none where
/// nothing stands behind it or no such option is given.
pub proof fn targets_stand_behind_their_option(
    before: Seq<Seq<u8>>,
    option: Seq<u8>,
    value: Seq<u8>,
    after: Seq<Seq<u8>>,
)
    requires
        forall|i: int|
            0 <= i < before.len() ==> !is_option(#[trigger] before[i], "-t"@, "-target"@),
        is_option(option, "-t"@, "-target"@),
    ensures
        clip::target(before.push(option).push(value) + after) == Some(bytes::shown(value)),
        clip::target(before.push(option)) is None,
        clip::target(before) is None,
{
    lemma_flag_at(before, Seq::empty());
    lemma_flag_at(before, seq![option]);
    lemma_flag_at(before, seq![option, value] + after);
    assert(before + Seq::<Seq<u8>>::empty() =~= before);
    assert(before + seq![option] =~= before.push(option));
    assert(before + (seq![option, value] + after) =~= before.push(option).push(value) + after);
}

proof fn lemma_flag_at(before: Seq<Seq<u8>>, rest: Seq<Seq<u8>>)
    requires
        forall|i: int|
            0 <= i < before.len() ==> !is_option(#[trigger] before[i], "-t"@, "-target"@),
        rest.len() > 0 ==> is_option(rest[0], "-t"@, "-target"@),
    ensures
        clip::target_flag(before + rest) == before.len(),
    decreases before.len(),
{
    if before.len() == 0 {
        assert(before + rest =~= rest);
    } else {
        let back = before.skip(1);
        assert forall|i: int| 0 <= i < back.len() implies !is_option(
            #[trigger] back[i],
            "-t"@,
            "-target"@,
        ) by {
            assert(back[i] == before[i + 1]);
        }
        assert(!is_option(before[0], "-t"@, "-target"@));
        assert((before + rest).skip(1) =~= back + rest);
        lemma_flag_at(back, rest);
    }
}

/// A call is answered here exactly when it asks for output and for the targets or the image.
pub proof fn calls_ask_for_targets_or_the_image(args: Seq<Seq<u8>>)
    ensures
        clip::wants_output(args) <==> exists|i: int|
            0 <= i < args.len() && is_option(#[trigger] args[i], "-o"@, "-out"@),
        (clip::wanted(args) == clip::Want::Targets) <==> clip::wants_output(args) && clip::target(
            args,
        ) == Some("TARGETS"@),
        (clip::wanted(args) == clip::Want::Image) <==> clip::wants_output(args) && clip::target(
            args,
        ) == Some("image/png"@),
{
    reveal_strlit("TARGETS");
    reveal_strlit("image/png");
    assert("TARGETS"@.len() != "image/png"@.len());
    assert(forall|i: int|
        0 <= i < args.len() ==> (clip::is_either(#[trigger] args[i], "-o"@, "-out"@) <==> is_option(
            args[i],
            "-o"@,
            "-out"@,
        )));
}

/// Bytes are an image exactly when they begin with the eight bytes that a PNG image begins with,
/// and are no more than 64 MB.
pub proof fn images_begin_as_png(b: Seq<u8>)
    ensures
        clip::is_image(b) <==> b.len() <= 67_108_864 && b.len() >= 8 && b[0] == 0x89 && b[1] == 80
            && b[2] == 78 && b[3] == 71 && b[4] == 13 && b[5] == 10 && b[6] == 26 && b[7] == 10,
{
    let magic = seq![0x89u8, 80, 78, 71, 13, 10, 26, 10];
    assert(clip::png_magic() =~= magic);
    if b.len() >= 8 {
        if b.take(8) == magic {
            assert(forall|i: int| 0 <= i < 8 ==> b[i] == b.take(8)[i]);
        }
        if b[0] == 0x89 && b[1] == 80 && b[2] == 78 && b[3] == 71 && b[4] == 13 && b[5] == 10
            && b[6] == 26 && b[7] == 10 {
            assert(b.take(8) =~= magic);
        }
    }
}

/// An image that came is pasted as it came, where it was asked for, and its kind is named where
/// that was; where none came nothing is said, and where no clipboard is forwarded, or something
/// else was asked for, the real program answers.
pub proof fn images_are_pasted_as_they_came(b: Vec<u8>, want: clip::Want)
    ensures
        clip::answered(clip::Want::Other, clip::fetched(clip::Reply::Data(b)))
            == clip::Said::RealXclip,
        clip::answered(want, clip::fetched(clip::Reply::NotConnected)) == clip::Said::RealXclip,
        want != clip::Want::Other ==> clip::answered(want, clip::fetched(clip::Reply::Failed))
            == clip::Said::Nothing,
        want != clip::Want::Other && !clip::is_image(b@) ==> clip::answered(
            want,
            clip::fetched(clip::Reply::Data(b)),
        ) == clip::Said::Nothing,
        clip::is_image(b@) ==> {
            &&& clip::answered(clip::Want::Image, clip::fetched(clip::Reply::Data(b)))
                == clip::Said::Output(b@)
            &&& clip::answered(clip::Want::Targets, clip::fetched(clip::Reply::Data(b)))
                == clip::Said::Output(encode_utf8("image/png\n"@))
        },
{
}

/// An answer says what it holds.
pub proof fn answers_say_what_they_hold(b: Vec<u8>)
    ensures
        clip::Answer::RealXclip@ == clip::Said::RealXclip,
        clip::Answer::Nothing@ == clip::Said::Nothing,
        clip::Answer::Output(b)@ == clip::Said::Output(b@),
{
}

} // verus!
