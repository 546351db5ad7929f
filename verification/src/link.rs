//! The link back to the machine that the user connects from. Each connection forwards a loopback
//! port to a responder there, and records it in a file named after the port, holding a token. A
//! request is the line `<token> <verb>`, the responder's hello line, then the body, then the reply.
//!
//! Several connections can be open at once, and one that has ended leaves its file behind, so a
//! request tries the newest first and moves on from one that does not answer. A port that nothing
//! listens on is a connection that has ended, and its file is removed.

use vstd::prelude::*;
use vstd::utf8::*;

use crate::bytes;
use crate::number;
use crate::path;
use crate::text;

verus! {

/// A recorded connection.
#[derive(Debug)]
pub struct Link {
    pub port: u16,
    pub token: String,
    /// The file to remove when nothing listens on the port.
    pub file: Option<Vec<u8>>,
    /// Whether the responder answers with the hello line.
    pub hello: bool,
}

/// What a `Link` holds.
pub ghost struct LinkData {
    pub port: u16,
    pub token: Seq<char>,
    pub file: Option<Seq<u8>>,
    pub hello: bool,
}

impl View for Link {
    type V = LinkData;

    open spec fn view(&self) -> LinkData {
        LinkData {
            port: self.port,
            token: self.token@,
            file: match self.file {
                Some(f) => Some(f@),
                None => None,
            },
            hello: self.hello,
        }
    }
}

/// A file of the directory of links, as far as it could be read.
#[derive(Debug)]
pub struct LinkFile {
    pub name: Vec<u8>,
    pub path: Vec<u8>,
    pub content: Option<String>,
    /// When it was last written, in nanoseconds from the epoch.
    pub modified: Option<i128>,
}

/// A link with the time of its file.
pub type Dated = (i128, LinkData);

/// The link that a file records, with the time of the file: the name is the port, and the content
/// without the white space around it is the token, which is not empty.
pub open spec fn recorded(f: LinkFile) -> Option<Dated> {
    match (f.content, f.modified) {
        (Some(content), Some(time)) => {
            let port = number::u16_value(decode_utf8(f.name@));
            let token = text::trim(content@);
            if valid_utf8(f.name@) && port is Some && token.len() > 0 {
                Some(
                    (
                        time,
                        LinkData { port: port->0, token, file: Some(f.path@), hello: true },
                    ),
                )
            } else {
                None
            }
        },
        _ => None,
    }
}

/// The links that files record, in the order of the files.
pub open spec fn all_recorded(files: Seq<LinkFile>) -> Seq<Dated>
    decreases files.len(),
{
    if files.len() == 0 {
        Seq::empty()
    } else {
        match recorded(files.last()) {
            Some(d) => all_recorded(files.drop_last()).push(d),
            None => all_recorded(files.drop_last()),
        }
    }
}

/// How many links of `v` come before the first that is older than `time`.
pub open spec fn place_of(v: Seq<Dated>, time: i128) -> nat
    decreases v.len(),
{
    if v.len() == 0 || v[0].0 < time {
        0
    } else {
        1 + place_of(v.skip(1), time)
    }
}

/// The links with the newest first, and links of the same time in the order in which they stood.
pub open spec fn newest_first(v: Seq<Dated>) -> Seq<Dated>
    decreases v.len(),
{
    if v.len() == 0 {
        v
    } else {
        let front = newest_first(v.drop_last());
        front.insert(place_of(front, v.last().0) as int, v.last())
    }
}

/// Whether no link is newer than one before it.
pub open spec fn descending(v: Seq<Dated>) -> bool {
    forall|i: int, j: int| 0 <= i < j < v.len() ==> (#[trigger] v[i]).0 >= (#[trigger] v[j]).0
}

proof fn lemma_place_of(v: Seq<Dated>, time: i128)
    ensures
        place_of(v, time) <= v.len(),
        forall|i: int| 0 <= i < place_of(v, time) ==> (#[trigger] v[i]).0 >= time,
        place_of(v, time) < v.len() ==> v[place_of(v, time) as int].0 < time,
    decreases v.len(),
{
    if v.len() == 0 || v[0].0 < time {
    } else {
        lemma_place_of(v.skip(1), time);
        assert forall|i: int| 0 <= i < place_of(v, time) implies (#[trigger] v[i]).0 >= time by {
            if i > 0 {
                assert(v.skip(1)[i - 1] == v[i]);
            }
        }
    }
}

proof fn lemma_place_of_is(v: Seq<Dated>, time: i128, n: int)
    requires
        0 <= n <= v.len(),
        forall|i: int| 0 <= i < n ==> (#[trigger] v[i]).0 >= time,
        n < v.len() ==> v[n].0 < time,
    ensures
        place_of(v, time) == n,
{
    lemma_place_of(v, time);
    let m = place_of(v, time) as int;
    if m < n {
        assert(v[m].0 >= time);
    }
    if m > n {
        assert(v[n].0 >= time);
    }
}

/// The newest link comes first: the order of times is descending, every link is there as often as
/// before, and links of the same time stand in the order in which they stood.
pub proof fn newest_first_sorts(v: Seq<Dated>, time: i128)
    ensures
        descending(newest_first(v)),
        newest_first(v).to_multiset() == v.to_multiset(),
        newest_first(v).filter(|d: Dated| d.0 == time) == v.filter(|d: Dated| d.0 == time),
    decreases v.len(),
{
    let same = |d: Dated| d.0 == time;
    if v.len() > 0 {
        let front = newest_first(v.drop_last());
        let last = v.last();
        let n = place_of(front, last.0) as int;
        newest_first_sorts(v.drop_last(), time);
        lemma_place_of(front, last.0);
        let now = front.insert(n, last);
        assert forall|i: int, j: int| 0 <= i < j < now.len() implies (#[trigger] now[i]).0
            >= (#[trigger] now[j]).0 by {
            let i0 = if i < n {
                i
            } else {
                i - 1
            };
            let j0 = if j < n {
                j
            } else {
                j - 1
            };
            if i != n {
                assert(now[i] == front[i0]);
            }
            if j != n {
                assert(now[j] == front[j0]);
            }
            if i == n && j > n {
                assert(front[n].0 < last.0);
                if j0 > n {
                    assert(front[n].0 >= front[j0].0);
                }
            }
        }
        vstd::seq_lib::to_multiset_insert(front, n, last);
        vstd::seq_lib::to_multiset_build(v.drop_last(), last);
        assert(v.drop_last().push(last) =~= v);
        let a = front.take(n);
        let b = front.skip(n);
        assert(now =~= a.push(last) + b);
        assert(front =~= a + b);
        Seq::filter_distributes_over_add(a.push(last), b, same);
        Seq::filter_distributes_over_add(a, b, same);
        reveal_with_fuel(Seq::filter, 2);
        assert(a.push(last).drop_last() =~= a);
        if same(last) {
            assert(b.filter(same) =~= Seq::empty()) by {
                assert forall|k: int| 0 <= k < b.len() implies !same(#[trigger] b[k]) by {
                    assert(b[k] == front[n + k]);
                    assert(front[n].0 < last.0);
                    if k > 0 {
                        assert(front[n].0 >= front[n + k].0);
                    }
                }
                lemma_filter_none(b, same);
            }
            assert(now.filter(same) =~= front.filter(same).push(last));
        } else {
            assert(now.filter(same) =~= front.filter(same));
        }
    }
}

proof fn lemma_filter_none<T>(s: Seq<T>, pred: spec_fn(T) -> bool)
    requires
        forall|k: int| 0 <= k < s.len() ==> !pred(#[trigger] s[k]),
    ensures
        s.filter(pred) == Seq::<T>::empty(),
    decreases s.len(),
{
    reveal_with_fuel(Seq::filter, 1);
    if s.len() > 0 {
        assert forall|k: int| 0 <= k < s.drop_last().len() implies !pred(
            #[trigger] s.drop_last()[k],
        ) by {
            assert(s.drop_last()[k] == s[k]);
        }
        lemma_filter_none(s.drop_last(), pred);
        assert(!pred(s[s.len() - 1]));
    }
}

/// The port and the token that a text names: its first two words.
pub open spec fn port_and_token(content: Seq<char>) -> Option<(u16, Seq<char>)> {
    let words = text::words(content);
    if words.len() >= 2 && number::u16_value(words[0]) is Some {
        Some((number::u16_value(words[0])->0, words[1]))
    } else {
        None
    }
}

/// The port and the token that a text names: its first two words.
pub fn read_port_and_token(content: &str) -> (r: Option<(u16, String)>)
    ensures
        match (r, port_and_token(content@)) {
            (Some((port, token)), Some((p, t))) => port == p && token@ == t,
            (None, None) => true,
            _ => false,
        },
{
    let words = text::split_words(content);
    let ghost all = text::words(content@);
    assert(words@.len() == all.len());
    if words.len() < 2 {
        return None;
    }
    assert(all[0] == words@[0]@ && all[1] == words@[1]@);
    match number::read_u16(words[0].as_str()) {
        Some(port) => Some((port, words[1].clone())),
        None => None,
    }
}

/// The link that the text of the one file of old launchers records: it has no hello line, and its
/// file stays.
pub open spec fn legacy(content: Seq<char>) -> Option<LinkData> {
    match port_and_token(content) {
        Some((port, token)) => Some(LinkData { port, token, file: None, hello: false }),
        None => None,
    }
}

/// The link that the text of the one file of old launchers records.
pub fn legacy_link(content: &str) -> (r: Option<Link>)
    ensures
        match (r, legacy(content@)) {
            (Some(link), Some(expected)) => link@ == expected,
            (None, None) => true,
            _ => false,
        },
{
    match read_port_and_token(content) {
        Some((port, token)) => Some(Link { port, token, file: None, hello: false }),
        None => None,
    }
}

/// The link that a file records, with the time of the file.
fn recorded_link(f: &LinkFile) -> (r: Option<(i128, Link)>)
    ensures
        match (r, recorded(*f)) {
            (Some((time, link)), Some(d)) => time == d.0 && link@ == d.1,
            (None, None) => true,
            _ => false,
        },
{
    let time = match f.modified {
        Some(time) => time,
        None => {
            return None;
        },
    };
    match (&f.content, bytes::utf8(f.name.as_slice())) {
        (Some(content), Some(name)) => {
            let token = text::trimmed(content.as_str());
            match number::read_u16(name.as_str()) {
                Some(port) => if token.as_str().is_empty() {
                    None
                } else {
                    let file = vstd::slice::slice_to_vec(f.path.as_slice());
                    Some((time, Link { port, token, file: Some(file), hello: true }))
                },
                None => None,
            }
        },
        _ => None,
    }
}

/// What links with their times hold.
pub open spec fn dated(v: Seq<(i128, Link)>) -> Seq<Dated> {
    v.map_values(|d: (i128, Link)| (d.0, d.1@))
}

/// What links hold.
pub open spec fn data(v: Seq<Link>) -> Seq<LinkData> {
    v.map_values(|l: Link| l@)
}

/// The recorded links, newest first, and then the one of old launchers.
pub open spec fn known_links(files: Seq<LinkFile>, old_content: Option<Seq<char>>) -> Seq<
    LinkData,
> {
    newest_first(all_recorded(files)).map_values(|d: Dated| d.1) + match old_content {
        Some(content) => match legacy(content) {
            Some(link) => seq![link],
            None => Seq::empty(),
        },
        None => Seq::empty(),
    }
}

/// Every recorded link, newest first, then the legacy one; `old_content` is the text of the file of
/// old launchers, when it could be read.
pub fn links(files: &Vec<LinkFile>, old_content: Option<&str>) -> (r: Vec<Link>)
    ensures
        data(r@) == known_links(files@, text::opt(old_content)),
{
    let mut found: Vec<(i128, Link)> = Vec::new();
    let mut i: usize = 0;
    assert(files@.take(0) =~= Seq::empty());
    assert(dated(found@) =~= newest_first(all_recorded(files@.take(0))));
    while i < files.len()
        invariant
            i <= files@.len(),
            dated(found@) == newest_first(all_recorded(files@.take(i as int))),
        decreases files@.len() - i,
    {
        let ghost before = dated(found@);
        let ghost sofar = all_recorded(files@.take(i as int));
        assert(files@.take(i + 1).drop_last() =~= files@.take(i as int));
        assert(files@.take(i + 1).last() == files@[i as int]);
        if let Some((time, link)) = recorded_link(&files[i]) {
            let ghost one: Dated = (time, link@);
            let mut k: usize = 0;
            while k < found.len() && found[k].0 >= time
                invariant
                    k <= found@.len(),
                    before == dated(found@),
                    forall|m: int| 0 <= m < k ==> (#[trigger] before[m]).0 >= time,
                decreases found@.len() - k,
            {
                assert(before[k as int].0 == found@[k as int].0);
                k += 1;
            }
            proof {
                if k < found@.len() {
                    assert(before[k as int].0 == found@[k as int].0);
                }
                lemma_place_of_is(before, time, k as int);
            }
            found.insert(k, (time, link));
            assert(dated(found@) =~= before.insert(k as int, one));
            assert(sofar.push(one).drop_last() =~= sofar);
        }
        i += 1;
    }
    assert(files@.take(i as int) =~= files@);
    let ghost sorted = newest_first(all_recorded(files@));
    let mut out: Vec<Link> = Vec::new();
    let ghost wanted = sorted.map_values(|d: Dated| d.1);
    let mut k: usize = 0;
    assert(data(out@) =~= wanted.take(0));
    while k < found.len()
        invariant
            k <= found@.len(),
            dated(found@) == sorted,
            wanted == sorted.map_values(|d: Dated| d.1),
            data(out@) == wanted.take(k as int),
        decreases found@.len() - k,
    {
        let ghost before = data(out@);
        let link = copy_link(&found[k].1);
        assert(sorted[k as int].1 == found@[k as int].1@);
        out.push(link);
        assert(data(out@) =~= before.push(link@));
        assert(wanted.take(k + 1) =~= wanted.take(k as int).push(link@));
        k += 1;
    }
    assert(wanted.take(k as int) =~= wanted);
    let ghost most = data(out@);
    match old_content {
        Some(content) => {
            if let Some(link) = legacy_link(content) {
                out.push(link);
                assert(data(out@) =~= most + seq![link@]);
            } else {
                assert(data(out@) =~= most + Seq::empty());
            }
        },
        None => {
            assert(data(out@) =~= most + Seq::empty());
        },
    }
    out
}

/// A copy of a link.
fn copy_link(link: &Link) -> (r: Link)
    ensures
        r@ == link@,
{
    let file = match &link.file {
        Some(f) => Some(vstd::slice::slice_to_vec(f.as_slice())),
        None => None,
    };
    Link { port: link.port, token: link.token.clone(), file, hello: link.hello }
}

/// How far the exchange over a link has come: what is to be done next.
#[derive(Debug, Clone, Copy, PartialEq, Eq, Structural)]
pub enum Stage {
    Connect,
    SendLine,
    ReadHello,
    SendBody,
    /// The request was sent, and the reply can be read.
    Done,
    /// No link is left to try.
    Over,
}

/// What came of it.
#[derive(Debug)]
pub enum Event {
    Succeeded,
    /// Nothing listens on the port.
    Refused,
    Failed,
    /// The line that was read.
    Line(String),
}

/// The stage after an event on a link that answers with the hello line or not; `None` when the
/// link has failed.
pub open spec fn attempt(hello: bool, stage: Stage, event: Event) -> Option<Stage> {
    match (stage, event) {
        (Stage::Connect, Event::Succeeded) => Some(Stage::SendLine),
        (Stage::SendLine, Event::Succeeded) => Some(
            if hello {
                Stage::ReadHello
            } else {
                Stage::SendBody
            },
        ),
        (Stage::ReadHello, Event::Line(line)) => if text::trim_end(line@) == "rclaude 1"@ {
            Some(Stage::SendBody)
        } else {
            None
        },
        (Stage::SendBody, Event::Succeeded) => Some(Stage::Done),
        (Stage::Done, _) => Some(Stage::Done),
        (Stage::Over, _) => Some(Stage::Over),
        _ => None,
    }
}

/// The stage after an event on a link; `None` when the link has failed.
pub fn try_link(link: &Link, stage: Stage, event: &Event) -> (r: Option<Stage>)
    ensures
        r == attempt(link.hello, stage, *event),
{
    match (stage, event) {
        (Stage::Connect, Event::Succeeded) => Some(Stage::SendLine),
        (Stage::SendLine, Event::Succeeded) => if link.hello {
            Some(Stage::ReadHello)
        } else {
            Some(Stage::SendBody)
        },
        (Stage::ReadHello, Event::Line(line)) => {
            let said = text::trimmed_end(line.as_str());
            if text::same(said.as_str(), "rclaude 1") {
                Some(Stage::SendBody)
            } else {
                None
            }
        },
        (Stage::SendBody, Event::Succeeded) => Some(Stage::Done),
        (Stage::Done, _) => Some(Stage::Done),
        (Stage::Over, _) => Some(Stage::Over),
        _ => None,
    }
}

/// A request on its way: the links, which of them is being tried, and how far it has come.
#[derive(Debug)]
pub struct Request {
    links: Vec<Link>,
    at: usize,
    stage: Stage,
}

/// Where a request stands.
pub ghost struct Progress {
    pub at: nat,
    pub stage: Stage,
}

/// Where a request over these links stands after an event: the link goes on, or the next one is
/// tried, or none is left.
pub open spec fn advance(links: Seq<LinkData>, p: Progress, event: Event) -> Progress {
    match attempt(p.at < links.len() && links[p.at as int].hello, p.stage, event) {
        Some(stage) => Progress { at: p.at, stage },
        None => from_link(links, p.at + 1),
    }
}

/// Where a request stands that has given up the first `at` links.
pub open spec fn from_link(links: Seq<LinkData>, at: nat) -> Progress {
    Progress {
        at,
        stage: if at < links.len() {
            Stage::Connect
        } else {
            Stage::Over
        },
    }
}

/// Where a request stands after events, one after another.
pub open spec fn progress(links: Seq<LinkData>, events: Seq<Event>) -> Progress
    decreases events.len(),
{
    if events.len() == 0 {
        from_link(links, 0)
    } else {
        advance(links, progress(links, events.drop_last()), events.last())
    }
}

/// A request over `links`, at its start with the first of them.
pub fn request(links: Vec<Link>) -> (r: Request)
    ensures
        r.links() == data(links@),
        r.progress() == from_link(data(links@), 0),
{
    let stage = if links.len() > 0 {
        Stage::Connect
    } else {
        Stage::Over
    };
    Request { links, at: 0, stage }
}

impl Request {
    pub closed spec fn links(&self) -> Seq<LinkData> {
        data(self.links@)
    }

    pub closed spec fn progress(&self) -> Progress {
        Progress { at: self.at as nat, stage: self.stage }
    }

    /// A link is being tried unless none is left.
    #[verifier::type_invariant]
    pub open spec fn wf(&self) -> bool {
        if self.progress().stage == Stage::Over {
            self.progress().at == self.links().len()
        } else {
            self.progress().at < self.links().len()
        }
    }

    /// What is to be done next.
    pub fn stage(&self) -> (r: Stage)
        ensures
            r == self.progress().stage,
    {
        self.stage
    }

    /// The port to connect to.
    pub fn port(&self) -> (r: u16)
        requires
            self.progress().stage != Stage::Over,
        ensures
            r == self.links()[self.progress().at as int].port,
    {
        proof {
            use_type_invariant(self);
        }
        assert(self.links()[self.at as int] == self.links@[self.at as int]@);
        self.links[self.at].port
    }

    /// The line to send: the token and the verb.
    pub fn line(&self, verb: &str) -> (r: String)
        requires
            self.progress().stage != Stage::Over,
        ensures
            r@ == request_line(self.links()[self.progress().at as int].token, verb@),
    {
        proof {
            use_type_invariant(self);
        }
        assert(self.links()[self.at as int] == self.links@[self.at as int]@);
        let mut out = self.links[self.at].token.clone();
        out.append(" ");
        out.append(verb);
        out.append("\n");
        out
    }

    /// The file to remove upon an event: that of a link on whose port nothing listens.
    pub fn stale_file(&self, event: &Event) -> (r: Option<Vec<u8>>)
        ensures
            match r {
                Some(f) => {
                    &&& self.progress().stage == Stage::Connect
                    &&& event is Refused
                    &&& self.links()[self.progress().at as int].file == Some(f@)
                },
                None => {
                    ||| self.progress().stage != Stage::Connect
                    ||| !(event is Refused)
                    ||| self.links()[self.progress().at as int].file is None
                },
            },
    {
        proof {
            use_type_invariant(self);
        }
        match (self.stage, event) {
            (Stage::Connect, Event::Refused) => {
                assert(self.links()[self.at as int] == self.links@[self.at as int]@);
                match &self.links[self.at].file {
                    Some(f) => Some(vstd::slice::slice_to_vec(f.as_slice())),
                    None => None,
                }
            },
            _ => None,
        }
    }

    /// The request after an event.
    pub fn next(self, event: &Event) -> (r: Request)
        ensures
            r.links() == self.links(),
            r.progress() == advance(self.links(), self.progress(), *event),
    {
        proof {
            use_type_invariant(&self);
        }
        if self.stage == Stage::Over {
            return self;
        }
        let count = self.links.len();
        assert(self.at < count);
        assert(self.links()[self.at as int] == self.links@[self.at as int]@);
        match try_link(&self.links[self.at], self.stage, event) {
            Some(stage) => Request { links: self.links, at: self.at, stage },
            None => {
                let at = self.at + 1;
                let stage = if at < count {
                    Stage::Connect
                } else {
                    Stage::Over
                };
                Request { links: self.links, at, stage }
            },
        }
    }
}

/// The line that a request begins with.
pub open spec fn request_line(token: Seq<char>, verb: Seq<char>) -> Seq<char> {
    token + " "@ + verb + "\n"@
}

/// Links are tried in order: whatever the events, each link before the one that a request stands at
/// was tried, and failed upon one of them.
pub proof fn links_are_tried_in_order(links: Seq<LinkData>, events: Seq<Event>, j: int)
    requires
        0 <= j < progress(links, events).at,
    ensures
        exists|k: int|
            0 <= k < events.len() && {
                let before = #[trigger] progress(links, events.take(k));
                &&& before.at == j
                &&& attempt(
                    before.at < links.len() && links[before.at as int].hello,
                    before.stage,
                    events[k],
                ) is None
            },
    decreases events.len(),
{
    if events.len() > 0 {
        let front = events.drop_last();
        let n = front.len() as int;
        assert(events.take(n) =~= front);
        if j < progress(links, front).at {
            links_are_tried_in_order(links, front, j);
            let k = choose|k: int|
                0 <= k < front.len() && {
                    let before = #[trigger] progress(links, front.take(k));
                    &&& before.at == j
                    &&& attempt(
                        before.at < links.len() && links[before.at as int].hello,
                        before.stage,
                        front[k],
                    ) is None
                };
            assert(front.take(k) =~= events.take(k));
            assert(front[k] == events[k]);
            assert(progress(links, events.take(k)).at == j);
        } else {
            assert(progress(links, events.take(n)).at == j);
            assert(events[n] == events.last());
        }
    }
}

/// A request is over only when it has given up every link. Until then it stands at one of them, and
/// it is done only once its body was sent over that one.
pub proof fn request_ends(links: Seq<LinkData>, events: Seq<Event>)
    ensures
        progress(links, events).stage == Stage::Over ==> progress(links, events).at == links.len(),
        progress(links, events).stage != Stage::Over ==> progress(links, events).at < links.len(),
        progress(links, events).stage == Stage::Done ==> exists|k: int|
            0 <= k < events.len() && (#[trigger] progress(links, events.take(k))) == (Progress {
                at: progress(links, events).at,
                stage: Stage::SendBody,
            }) && events[k] is Succeeded,
    decreases events.len(),
{
    if events.len() > 0 {
        let front = events.drop_last();
        let n = front.len() as int;
        assert(events.take(n) =~= front);
        request_ends(links, front);
        if progress(links, events).stage == Stage::Done {
            if progress(links, front).stage == Stage::Done {
                let k = choose|k: int|
                    0 <= k < front.len() && (#[trigger] progress(links, front.take(k)))
                        == (Progress { at: progress(links, front).at, stage: Stage::SendBody })
                        && front[k] is Succeeded;
                assert(front.take(k) =~= events.take(k));
                assert(front[k] == events[k]);
                assert(progress(links, events.take(k)).stage == Stage::SendBody);
            } else {
                assert(progress(links, events.take(n)).stage == Stage::SendBody);
                assert(events[n] == events.last());
            }
        }
    }
}

/// The body goes only to a responder that has said hello: over a link whose responder does so, it
/// is sent only after its hello line was read.
pub proof fn body_follows_hello(links: Seq<LinkData>, events: Seq<Event>)
    requires
        progress(links, events).at < links.len(),
        links[progress(links, events).at as int].hello,
        progress(links, events).stage == Stage::SendBody || progress(links, events).stage
            == Stage::Done,
    ensures
        exists|k: int|
            0 <= k < events.len() && (#[trigger] progress(links, events.take(k))) == (Progress {
                at: progress(links, events).at,
                stage: Stage::ReadHello,
            }) && (events[k] matches Event::Line(line) && text::trim_end(line@) == "rclaude 1"@),
    decreases events.len(),
{
    if events.len() > 0 {
        let front = events.drop_last();
        let n = front.len() as int;
        let now = progress(links, events);
        assert(events.take(n) =~= front);
        assert(events[n] == events.last());
        let before = progress(links, front);
        if before.stage == Stage::SendBody || before.stage == Stage::Done {
            assert(before.at == now.at);
            body_follows_hello(links, front);
            let k = choose|k: int|
                0 <= k < front.len() && (#[trigger] progress(links, front.take(k))) == (Progress {
                    at: now.at,
                    stage: Stage::ReadHello,
                }) && (front[k] matches Event::Line(line) && text::trim_end(line@)
                    == "rclaude 1"@);
            assert(front.take(k) =~= events.take(k));
            assert(front[k] == events[k]);
            assert(progress(links, events.take(k)).stage == Stage::ReadHello);
        } else {
            assert(progress(links, events.take(n)).stage == Stage::ReadHello);
        }
    }
}

/// Where a program of this name may stand: in each directory of the search path, which colons
/// separate.
pub open spec fn search_places(search_path: Seq<u8>, name: Seq<char>) -> Seq<Seq<u8>> {
    text::pieces(search_path, 58).map_values(|dir: Seq<u8>| path::push(dir, encode_utf8(name)))
}

/// Where a program of this name may stand: in each directory of the search path.
pub fn candidates(search_path: &[u8], name: &str) -> (r: Vec<Vec<u8>>)
    ensures
        bytes::views(r@) == search_places(search_path@, name@),
{
    let dirs = bytes::split(search_path, 58);
    let ghost all = search_places(search_path@, name@);
    let mut out: Vec<Vec<u8>> = Vec::new();
    let mut i: usize = 0;
    assert(bytes::views(out@) =~= all.take(0));
    while i < dirs.len()
        invariant
            i <= dirs@.len(),
            bytes::views(dirs@) == text::pieces(search_path@, 58),
            all == search_places(search_path@, name@),
            bytes::views(out@) == all.take(i as int),
        decreases dirs@.len() - i,
    {
        let ghost before = bytes::views(out@);
        let one = path::pushed(dirs[i].as_slice(), name.as_bytes());
        assert(text::pieces(search_path@, 58)[i as int] == dirs@[i as int]@);
        out.push(one);
        assert(bytes::views(out@) =~= before.push(one@));
        assert(all.take(i + 1) =~= all.take(i as int).push(one@));
        i += 1;
    }
    assert(all.take(i as int) =~= all);
    out
}

/// What stands at a place where a program may stand.
#[derive(Debug)]
pub struct Candidate {
    pub is_file: bool,
    /// Its canonical path, when it has one.
    pub canonical: Option<Vec<u8>>,
}

/// The bytes of a path, when there is one.
pub open spec fn opt_bytes(p: Option<Vec<u8>>) -> Option<Seq<u8>> {
    match p {
        Some(p) => Some(p@),
        None => None,
    }
}

/// Whether a canonical path is that of the program of this name.
pub open spec fn ours(canonical: Option<Seq<u8>>, program: Seq<char>) -> bool {
    canonical matches Some(p) && path::file_name(p) == Some(encode_utf8(program))
}

/// Whether a canonical path is that of this program, whose name is `program`: a link to it under
/// another name leads there.
pub fn is_this_program(canonical: &Option<Vec<u8>>, program: &str) -> (r: bool)
    ensures
        r == ours(opt_bytes(*canonical), program@),
{
    match canonical {
        Some(p) => match path::file_name_of(p.as_slice()) {
            Some(name) => bytes::same(name.as_slice(), program.as_bytes()),
            None => false,
        },
        None => false,
    }
}

/// Whether a candidate is a program other than this one, whose own canonical path is `me` and whose
/// name is `program`.
pub open spec fn other_program(c: Candidate, me: Option<Seq<u8>>, program: Seq<char>) -> bool {
    c.is_file && opt_bytes(c.canonical) != me && !ours(opt_bytes(c.canonical), program)
}

/// Whether two optional paths are the same.
fn same_place(a: &Option<Vec<u8>>, b: &Option<Vec<u8>>) -> (r: bool)
    ensures
        r == (opt_bytes(*a) == opt_bytes(*b)),
{
    match (a, b) {
        (Some(x), Some(y)) => bytes::same(x.as_slice(), y.as_slice()),
        (None, None) => true,
        _ => false,
    }
}

/// The first candidate that is a program other than this one.
pub fn find_real(found: &Vec<Candidate>, me: &Option<Vec<u8>>, program: &str) -> (r: Option<usize>)
    ensures
        match r {
            Some(i) => {
                &&& i < found@.len()
                &&& other_program(found@[i as int], opt_bytes(*me), program@)
                &&& forall|k: int|
                    0 <= k < i ==> !other_program(#[trigger] found@[k], opt_bytes(*me), program@)
            },
            None => forall|k: int|
                0 <= k < found@.len() ==> !other_program(
                    #[trigger] found@[k],
                    opt_bytes(*me),
                    program@,
                ),
        },
{
    let mut i: usize = 0;
    while i < found.len()
        invariant
            i <= found@.len(),
            forall|k: int|
                0 <= k < i ==> !other_program(#[trigger] found@[k], opt_bytes(*me), program@),
        decreases found@.len() - i,
    {
        let c = &found[i];
        if c.is_file && !same_place(&c.canonical, me) && !is_this_program(&c.canonical, program) {
            return Some(i);
        }
        i += 1;
    }
    None
}

/// The status of handing a call to another program that did not take over: whether there was one
/// that could not be run, or none.
pub fn run_real(found: bool) -> (r: i32)
    ensures
        r == (if found {
            126i32
        } else {
            127i32
        }),
{
    if found {
        126
    } else {
        127
    }
}

/// What is said of a program that could not be run.
pub fn cannot_run(name: &str, program: &[u8], reason: &str) -> (r: String)
    ensures
        r@ == name@ + ": cannot run "@ + bytes::shown(program@) + ": "@ + reason@,
{
    let mut out = name.to_owned();
    let shown = path::display(program);
    out.append(": cannot run ");
    out.append(shown.as_str());
    out.append(": ");
    out.append(reason);
    out
}

} // verus!
