//! Laws of the links, and of the requests over them.

use vstd::prelude::*;
use vstd::utf8::*;

use crate::link;
use crate::number;
use crate::path;
use crate::text;

verus! {

/// A file records a link exactly when its name is a port, it could be read and dated, and holds
/// more than white space: the link has that port, the rest of the content for its token, and the
/// file to remove; its responder says hello.
pub proof fn files_record_links(
    f: link::LinkFile,
    name: Seq<char>,
    before: Seq<char>,
    token: Seq<char>,
    after: Seq<char>,
)
    requires
        f.name@ == encode_utf8(name),
        f.content matches Some(content) ==> content@ == before + token + after,
        crate::laws::text::blank(before),
        crate::laws::text::blank(after),
        token.len() > 0 ==> !text::white_space(token[0]) && !text::white_space(token.last()),
    ensures
        match (f.content, f.modified, number::u16_value(name)) {
            (Some(_), Some(time), Some(port)) => if token.len() > 0 {
                link::recorded(f) == Some(
                    (time, link::LinkData { port, token, file: Some(f.path@), hello: true }),
                )
            } else {
                link::recorded(f) is None
            },
            _ => link::recorded(f) is None,
        },
{
    encode_utf8_valid_utf8(name);
    encode_utf8_decode_utf8(name);
    crate::laws::text::trimming_keeps_the_middle(before, token, after);
}

/// A file whose name is no text records none.
pub proof fn unnamed_files_record_nothing(f: link::LinkFile)
    requires
        !valid_utf8(f.name@),
    ensures
        link::recorded(f) is None,
{
}

/// The links of files are those that each of them records.
pub proof fn links_are_gathered_file_by_file(files: Seq<link::LinkFile>, f: link::LinkFile)
    ensures
        link::all_recorded(Seq::empty()) == Seq::<link::Dated>::empty(),
        link::recorded(f) matches Some(d) ==> link::all_recorded(files.push(f))
            == link::all_recorded(files).push(d),
        link::recorded(f) is None ==> link::all_recorded(files.push(f)) == link::all_recorded(
            files,
        ),
{
    assert(files.push(f).drop_last() =~= files);
}

/// No link stands behind an older one, and none is lost or won.
pub proof fn newer_links_stand_before_older(v: Seq<link::Dated>, i: int, j: int)
    requires
        0 <= i < j < link::newest_first(v).len(),
    ensures
        link::newest_first(v)[i].0 >= link::newest_first(v)[j].0,
        link::newest_first(v).to_multiset() == v.to_multiset(),
{
    link::newest_first_sorts(v, 0);
}

/// All links are known: those of the files, newest first, and then the one of old launchers, where
/// its file names one.
pub proof fn old_links_come_last(files: Seq<link::LinkFile>, content: Seq<char>, i: int)
    ensures
        ({
            let newest = link::newest_first(link::all_recorded(files));
            let known = link::known_links(files, Some(content));
            &&& 0 <= i < newest.len() ==> known[i] == newest[i].1
            &&& link::legacy(content) is None ==> known.len() == newest.len()
            &&& link::legacy(content) matches Some(old) ==> known.len() == newest.len() + 1
                && known.last() == old
            &&& link::known_links(files, None).len() == newest.len()
            &&& 0 <= i < newest.len() ==> link::known_links(files, None)[i] == newest[i].1
        }),
{
}

/// A port and a token are the first two words of a text, where the first is a port; a link of old
/// launchers is that, without a hello line and without a file to remove.
pub proof fn ports_and_tokens_are_two_words(
    before: Seq<char>,
    port: Seq<char>,
    between: Seq<char>,
    token: Seq<char>,
    rest: Seq<char>,
)
    requires
        crate::laws::text::blank(before),
        crate::laws::text::blank(between),
        crate::laws::text::unbroken(port),
        crate::laws::text::unbroken(token),
        port.len() > 0,
        between.len() > 0,
        token.len() > 0,
        rest.len() > 0 ==> text::white_space(rest[0]),
    ensures
        ({
            let content = before + port + (between + token + rest);
            match number::u16_value(port) {
                Some(n) => {
                    &&& link::port_and_token(content) == Some((n, token))
                    &&& link::legacy(content) == Some(
                        link::LinkData { port: n, token, file: None, hello: false },
                    )
                },
                None => link::port_and_token(content) is None && link::legacy(content) is None,
            }
        }),
        link::port_and_token(before) is None,
        link::port_and_token(before + port + between) is None,
{
    let back = between + token + rest;
    assert(back[0] == between[0]);
    assert(text::white_space(between[0]));
    crate::laws::text::words_are_unbroken_runs(before, port, back);
    crate::laws::text::words_are_unbroken_runs(between, token, rest);
    crate::laws::text::words_are_unbroken_runs(before, port, between);
}

/// A link goes on in one way only: it is connected to, sent the line, where its responder says
/// hello it is read, and then sent the body. Anything else that happens is its end.
pub proof fn links_go_on_in_one_way(hello: bool, stage: link::Stage, line: String)
    ensures
        link::attempt(hello, link::Stage::Connect, link::Event::Succeeded) == Some(
            link::Stage::SendLine,
        ),
        link::attempt(true, link::Stage::SendLine, link::Event::Succeeded) == Some(
            link::Stage::ReadHello,
        ),
        link::attempt(false, link::Stage::SendLine, link::Event::Succeeded) == Some(
            link::Stage::SendBody,
        ),
        link::attempt(hello, link::Stage::SendBody, link::Event::Succeeded) == Some(
            link::Stage::Done,
        ),
        link::attempt(hello, link::Stage::ReadHello, link::Event::Succeeded) is None,
        link::attempt(hello, link::Stage::ReadHello, link::Event::Line(line)) == (if text::trim_end(
            line@,
        ) == "rclaude 1"@ {
            Some(link::Stage::SendBody)
        } else {
            None
        }),
        stage != link::Stage::Done && stage != link::Stage::Over ==> {
            &&& link::attempt(hello, stage, link::Event::Refused) is None
            &&& link::attempt(hello, stage, link::Event::Failed) is None
            &&& stage != link::Stage::ReadHello ==> link::attempt(
                hello,
                stage,
                link::Event::Line(line),
            ) is None
        },
        link::attempt(hello, link::Stage::Done, link::Event::Line(line)) == Some(
            link::Stage::Done,
        ),
        link::attempt(hello, link::Stage::Over, link::Event::Line(line)) == Some(
            link::Stage::Over,
        ),
{
}

/// A request begins with the first link, stays with a link as long as that goes on, and begins anew
/// with the next when it does not; behind the last it is over.
pub proof fn requests_go_from_link_to_link(
    links: Seq<link::LinkData>,
    events: Seq<link::Event>,
    event: link::Event,
)
    ensures
        ({
            let first = link::progress(links, Seq::empty());
            let now = link::progress(links, events);
            let next = link::progress(links, events.push(event));
            &&& first.at == 0
            &&& first.stage == (if links.len() > 0 {
                link::Stage::Connect
            } else {
                link::Stage::Over
            })
            &&& now.at < links.len() ==> match link::attempt(
                links[now.at as int].hello,
                now.stage,
                event,
            ) {
                Some(stage) => next.at == now.at && next.stage == stage,
                None => next.at == now.at + 1 && next.stage == (if now.at + 1 < links.len() {
                    link::Stage::Connect
                } else {
                    link::Stage::Over
                }),
            }
            &&& now.stage == link::Stage::Over ==> next == now
            &&& next == link::advance(links, now, event)
        }),
{
    assert(events.push(event).drop_last() =~= events);
}

/// A request is one line: the token, a space, and the verb.
pub proof fn requests_begin_with_their_token(token: Seq<char>, verb: Seq<char>)
    ensures
        link::request_line(token, verb) == token.push(' ') + verb.push('\n'),
{
    reveal_strlit(" ");
    reveal_strlit("\n");
    assert(link::request_line(token, verb) =~= token.push(' ') + verb.push('\n'));
}

/// A program is looked for in each directory between the colons of the search path, in their order.
pub proof fn programs_are_looked_for_in_each_directory(
    dir: Seq<u8>,
    rest: Seq<u8>,
    name: Seq<char>,
)
    requires
        !dir.contains(58u8),
    ensures
        link::search_places(dir, name) == seq![path::push(dir, encode_utf8(name))],
        link::search_places(dir.push(58u8) + rest, name) == seq![
            path::push(dir, encode_utf8(name)),
        ] + link::search_places(rest, name),
{
    let each = |dir: Seq<u8>| path::push(dir, encode_utf8(name));
    crate::laws::text::separators_part(dir, 58u8, rest);
    assert(seq![dir].map_values(each) =~= seq![path::push(dir, encode_utf8(name))]);
    let back = text::pieces(rest, 58u8);
    assert((seq![dir] + back).map_values(each) =~= seq![path::push(dir, encode_utf8(name))]
        + back.map_values(each));
}

/// A path is this program's when the file that it leads to has the program's name. Another program
/// is a file that is neither that nor the running one.
pub proof fn programs_are_known_by_their_file(
    c: link::Candidate,
    me: Option<Seq<u8>>,
    dir: Seq<u8>,
    name: Seq<u8>,
    program: Seq<char>,
    p: Vec<u8>,
)
    requires
        crate::laws::path::is_name(name),
        name != seq![46u8, 46u8],
    ensures
        link::ours(Some(path::push(dir, name)), program) == (name == encode_utf8(program)),
        !link::ours(None, program),
        link::opt_bytes(Some(p)) == Some(p@),
        link::opt_bytes(None) is None,
        link::other_program(c, me, program) <==> c.is_file && link::opt_bytes(c.canonical) != me
            && !link::ours(link::opt_bytes(c.canonical), program),
{
    assert(path::dotdot() =~= seq![46u8, 46u8]);
    path::file_name_of_push(dir, name);
}

/// What links hold is held one by one.
pub proof fn links_hold_what_they_hold(v: Seq<link::Link>, i: int)
    requires
        0 <= i < v.len(),
    ensures
        link::data(v).len() == v.len(),
        ({
            let (l, d) = (v[i], link::data(v)[i]);
            &&& d.port == l.port && d.token == l.token@ && d.hello == l.hello
            &&& d.file == (match l.file {
                Some(f) => Some(f@),
                None => None,
            })
        }),
{
}

} // verus!
