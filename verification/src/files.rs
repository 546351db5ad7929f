//! The file tools: where a path leads, which lines of a file are shown, how a file is replaced,
//! and what an edit does to its text. Every look at the file system is the caller's; its outcome
//! is handed in here.

use vstd::prelude::*;
use vstd::utf8::*;

use crate::bytes;
use crate::follow;
use crate::number;
use crate::path;
use crate::text;

verus! {

/// Lines shown when no limit is given.
pub const DEFAULT_LIMIT: usize = 2000;

/// Longer lines are cut to this many characters.
pub const MAX_LINE: usize = 2000;

/// Why a file tool refused or failed.
#[derive(Debug)]
pub enum FileError {
    /// The path, or where its links lead, lies outside every served directory.
    Outside { path: Vec<u8>, roots: Vec<Vec<u8>> },
    /// The links of the path could not be followed.
    Unfollowed { path: Vec<u8> },
    Directory { path: Vec<u8> },
    Unreadable { path: Vec<u8> },
    Empty { path: Vec<u8> },
    /// The first wanted line is behind the last one.
    PastEnd { path: Vec<u8>, total: usize, start: usize },
    SameStrings,
    EmptyOldString,
    NotFound { path: Vec<u8> },
    /// The text to replace stands in more than one place.
    Ambiguous { path: Vec<u8>, count: usize },
    CannotCreate { path: Vec<u8> },
    CannotWrite { path: Vec<u8> },
    CannotReplace { path: Vec<u8> },
}

/// What a `FileError` says.
pub ghost enum Failure {
    Outside { path: Seq<u8>, roots: Seq<Seq<u8>> },
    Unfollowed { path: Seq<u8> },
    Directory { path: Seq<u8> },
    Unreadable { path: Seq<u8> },
    Empty { path: Seq<u8> },
    PastEnd { path: Seq<u8>, total: nat, start: nat },
    SameStrings,
    EmptyOldString,
    NotFound { path: Seq<u8> },
    Ambiguous { path: Seq<u8>, count: nat },
    CannotCreate { path: Seq<u8> },
    CannotWrite { path: Seq<u8> },
    CannotReplace { path: Seq<u8> },
}

impl View for FileError {
    type V = Failure;

    open spec fn view(&self) -> Failure {
        match *self {
            FileError::Outside { path, roots } => Failure::Outside {
                path: path@,
                roots: bytes::views(roots@),
            },
            FileError::Unfollowed { path } => Failure::Unfollowed { path: path@ },
            FileError::Directory { path } => Failure::Directory { path: path@ },
            FileError::Unreadable { path } => Failure::Unreadable { path: path@ },
            FileError::Empty { path } => Failure::Empty { path: path@ },
            FileError::PastEnd { path, total, start } => Failure::PastEnd {
                path: path@,
                total: total as nat,
                start: start as nat,
            },
            FileError::SameStrings => Failure::SameStrings,
            FileError::EmptyOldString => Failure::EmptyOldString,
            FileError::NotFound { path } => Failure::NotFound { path: path@ },
            FileError::Ambiguous { path, count } => Failure::Ambiguous {
                path: path@,
                count: count as nat,
            },
            FileError::CannotCreate { path } => Failure::CannotCreate { path: path@ },
            FileError::CannotWrite { path } => Failure::CannotWrite { path: path@ },
            FileError::CannotReplace { path } => Failure::CannotReplace { path: path@ },
        }
    }
}

/// The paths as text, with commas between them.
pub open spec fn path_list(paths: Seq<Seq<u8>>) -> Seq<char> {
    text::join(paths.map_values(|p: Seq<u8>| bytes::shown(p)), ", "@)
}

/// The words for a failure.
pub open spec fn failure_text(f: Failure) -> Seq<char> {
    match f {
        Failure::Outside { path, roots } => bytes::shown(path)
            + " is outside the directories this server serves ("@ + path_list(roots) + ")"@,
        Failure::Unfollowed { path } => "cannot follow the links of "@ + bytes::shown(path),
        Failure::Directory { path } => bytes::shown(path) + " is a directory, not a file"@,
        Failure::Unreadable { path } => "cannot read "@ + bytes::shown(path),
        Failure::Empty { path } => bytes::shown(path) + " is empty"@,
        Failure::PastEnd { path, total, start } => bytes::shown(path) + " has "@
            + number::decimal(total) + " lines; offset "@ + number::decimal(start)
            + " is past its end"@,
        Failure::SameStrings => "old_string and new_string are the same"@,
        Failure::EmptyOldString => "old_string is empty"@,
        Failure::NotFound { path } => "old_string was not found in "@ + bytes::shown(path),
        Failure::Ambiguous { path, count } => "old_string matches "@ + number::decimal(count)
            + " places in "@ + bytes::shown(path)
            + "; include more context to make it unique, or set replace_all"@,
        Failure::CannotCreate { path } => "cannot create "@ + bytes::shown(path),
        Failure::CannotWrite { path } => "cannot write "@ + bytes::shown(path),
        Failure::CannotReplace { path } => "cannot replace "@ + bytes::shown(path),
    }
}

/// The paths as text, with commas between them.
pub fn list_paths(paths: &Vec<Vec<u8>>) -> (r: String)
    ensures
        r@ == path_list(bytes::views(paths@)),
{
    let mut shown: Vec<String> = Vec::new();
    let ghost all = bytes::views(paths@).map_values(|p: Seq<u8>| bytes::shown(p));
    let mut i: usize = 0;
    assert(text::texts(shown@) =~= all.take(0));
    while i < paths.len()
        invariant
            i <= paths@.len(),
            all == bytes::views(paths@).map_values(|p: Seq<u8>| bytes::shown(p)),
            text::texts(shown@) == all.take(i as int),
        decreases paths@.len() - i,
    {
        let one = path::display(paths[i].as_slice());
        let ghost before = text::texts(shown@);
        shown.push(one);
        assert(text::texts(shown@) =~= before.push(one@));
        assert(all[i as int] == bytes::shown(paths@[i as int]@));
        assert(all.take(i + 1) =~= all.take(i as int).push(one@));
        i += 1;
    }
    assert(all.take(i as int) =~= all);
    text::joined(&shown, ", ")
}

/// `before`, the path as text, `after`.
fn about(before: &str, p: &Vec<u8>, after: &str) -> (r: String)
    ensures
        r@ == before@ + bytes::shown(p@) + after@,
{
    let mut out = before.to_owned();
    let shown = path::display(p.as_slice());
    out.append(shown.as_str());
    out.append(after);
    out
}

impl FileError {
    /// The words for this error.
    pub fn message(&self) -> (r: String)
        ensures
            r@ == failure_text(self@),
    {
        proof {
            reveal_strlit("");
            assert(forall|s: Seq<char>| #[trigger] (""@ + s) =~= s);
            assert(forall|s: Seq<char>| #[trigger] (s + ""@) =~= s);
        }
        match self {
            FileError::Outside { path, roots } => {
                let mut out = about(
                    "",
                    path,
                    " is outside the directories this server serves (",
                );
                let list = list_paths(roots);
                out.append(list.as_str());
                out.append(")");
                out
            },
            FileError::Unfollowed { path } => about("cannot follow the links of ", path, ""),
            FileError::Directory { path } => about("", path, " is a directory, not a file"),
            FileError::Unreadable { path } => about("cannot read ", path, ""),
            FileError::Empty { path } => about("", path, " is empty"),
            FileError::PastEnd { path, total, start } => {
                let mut out = about("", path, " has ");
                let lines = number::write_decimal(*total as u128);
                let first = number::write_decimal(*start as u128);
                out.append(lines.as_str());
                out.append(" lines; offset ");
                out.append(first.as_str());
                out.append(" is past its end");
                out
            },
            FileError::SameStrings => "old_string and new_string are the same".to_owned(),
            FileError::EmptyOldString => "old_string is empty".to_owned(),
            FileError::NotFound { path } => about("old_string was not found in ", path, ""),
            FileError::Ambiguous { path, count } => {
                let mut out = "old_string matches ".to_owned();
                let places = number::write_decimal(*count as u128);
                let shown = path::display(path.as_slice());
                out.append(places.as_str());
                out.append(" places in ");
                out.append(shown.as_str());
                out.append("; include more context to make it unique, or set replace_all");
                out
            },
            FileError::CannotCreate { path } => about("cannot create ", path, ""),
            FileError::CannotWrite { path } => about("cannot write ", path, ""),
            FileError::CannotReplace { path } => about("cannot replace ", path, ""),
        }
    }
}

/// The components of `path` taken against `cwd`, with `.` and `..` folded away.
pub open spec fn target_parts(path: Seq<char>, cwd: Seq<u8>) -> Seq<Seq<u8>> {
    path::folded(path::components(path::push(cwd, encode_utf8(path))))
}

/// The search for where a path leads. First the deepest ancestor that exists is looked for: the
/// path has these components, and `depth` of them make up the ancestor in question, at first all.
/// Where a link was met that leads nowhere, the links of the path are followed then.
#[derive(Debug)]
pub struct Resolution {
    parts: Vec<Vec<u8>>,
    depth: usize,
    stage: Stage,
}

#[derive(Debug)]
enum Stage {
    /// On the way up; whether a link was met that leads nowhere.
    Climb { dangling: bool },
    Follow(follow::Trail),
}

/// Where the links of a path lead.
#[derive(Debug)]
pub enum Lead {
    /// No link was met that leads nowhere.
    NoLink,
    /// To the path of these components.
    To(Vec<Vec<u8>>),
    /// Nowhere that could be found.
    Lost,
}

/// A finished search.
#[derive(Debug)]
pub struct Settled {
    parts: Vec<Vec<u8>>,
    depth: usize,
    lead: Lead,
}

/// What to do next in a search.
#[derive(Debug)]
pub enum Walk {
    /// Look what stands at the candidate, and take another step with the answer.
    Look(Resolution),
    /// Canonicalise the ancestor that was found, and resolve with the outcome.
    Settle(Settled),
}

/// What a `Lead` says.
pub ghost enum Led {
    NoLink,
    To(Seq<Seq<u8>>),
    Lost,
}

impl View for Lead {
    type V = Led;

    open spec fn view(&self) -> Led {
        match *self {
            Lead::NoLink => Led::NoLink,
            Lead::To(parts) => Led::To(bytes::views(parts@)),
            Lead::Lost => Led::Lost,
        }
    }
}

/// Where a search ended: how many components make up the ancestor that was found, and where the
/// links lead where one was met that leads nowhere.
pub ghost struct End {
    pub depth: nat,
    pub lead: Led,
}

/// Where a search stands.
pub ghost enum State {
    Climb { depth: nat, dangling: bool },
    Follow { depth: nat, at: Seq<Seq<u8>>, todo: Seq<Seq<u8>>, hops: nat },
    Over(End),
}

/// Whether the path of the first `depth` of `parts` has a parent.
pub open spec fn has_parent(parts: Seq<Seq<u8>>, depth: nat) -> bool {
    depth > 1 || (depth == 1 && parts[0] != path::root())
}

/// The first `depth` of `parts` as a path.
pub open spec fn ancestor(parts: Seq<Seq<u8>>, depth: nat) -> Seq<u8> {
    path::render(parts.take(depth as int))
}

/// How many components make up the ancestor that a search from `depth` up finds, when `disk` says
/// what stands at each path: the deepest that exists, or one without a parent.
pub open spec fn found_depth(
    parts: Seq<Seq<u8>>,
    depth: nat,
    disk: spec_fn(Seq<u8>) -> follow::Spot,
) -> nat
    decreases depth,
{
    if follow::is_there(disk(ancestor(parts, depth))) || !has_parent(parts, depth) {
        depth
    } else {
        found_depth(parts, (depth - 1) as nat, disk)
    }
}

/// Whether a link that leads nowhere stands at one of the ancestors that a search from `depth` up
/// looks at.
pub open spec fn meets_dangling(
    parts: Seq<Seq<u8>>,
    depth: nat,
    disk: spec_fn(Seq<u8>) -> follow::Spot,
) -> bool {
    exists|d: nat|
        found_depth(parts, depth, disk) <= d <= depth && follow::leads_nowhere(
            disk(#[trigger] ancestor(parts, d)),
        )
}

/// Where links lead, by what following them gave.
pub open spec fn led(reached: Option<Seq<Seq<u8>>>) -> Led {
    match reached {
        Some(at) => Led::To(at),
        None => Led::Lost,
    }
}

/// Where the search for the path of these components ends, when `disk` says what stands at each
/// path.
pub open spec fn search_end(
    parts: Seq<Seq<u8>>,
    disk: spec_fn(Seq<u8>) -> follow::Spot,
) -> End {
    End {
        depth: found_depth(parts, parts.len(), disk),
        lead: if meets_dangling(parts, parts.len(), disk) {
            led(follow::led_to(parts, disk))
        } else {
            Led::NoLink
        },
    }
}

/// Where a search ends that stands here.
pub open spec fn end_from(
    parts: Seq<Seq<u8>>,
    state: State,
    disk: spec_fn(Seq<u8>) -> follow::Spot,
) -> End {
    match state {
        State::Climb { depth, dangling } => End {
            depth: found_depth(parts, depth, disk),
            lead: if dangling || meets_dangling(parts, depth, disk) {
                led(follow::led_to(parts, disk))
            } else {
                Led::NoLink
            },
        },
        State::Follow { depth, at, todo, hops } => End {
            depth,
            lead: led(follow::course_end(follow::Course::On { at, todo, hops }, disk)),
        },
        State::Over(end) => end,
    }
}

/// The path to look at next.
pub open spec fn question(parts: Seq<Seq<u8>>, state: State) -> Seq<u8> {
    match state {
        State::Climb { depth, dangling } => ancestor(parts, depth),
        State::Follow { depth, at, todo, hops } => path::render(at.push(todo[0])),
        State::Over(end) => ancestor(parts, end.depth),
    }
}

/// Where a search stands that follows links.
pub open spec fn following(depth: nat, c: follow::Course) -> State {
    match c {
        follow::Course::On { at, todo, hops } => State::Follow { depth, at, todo, hops },
        follow::Course::To(at) => State::Over(End { depth, lead: Led::To(at) }),
        follow::Course::Lost => State::Over(End { depth, lead: Led::Lost }),
    }
}

/// Where a search stands once it is known what stands at the path it looks at. The way up ends at
/// something that exists, or at a path without a parent, and else goes on with the parent. Where a
/// link was met that leads nowhere, the path is then followed from its start.
pub open spec fn next_state(parts: Seq<Seq<u8>>, state: State, spot: follow::Spot) -> State {
    match state {
        State::Climb { depth, dangling } => {
            let met = dangling || follow::leads_nowhere(spot);
            if !follow::is_there(spot) && has_parent(parts, depth) {
                State::Climb { depth: (depth - 1) as nat, dangling: met }
            } else if met {
                following(
                    depth,
                    follow::course(Seq::empty(), parts, follow::MAX_LINKS as nat),
                )
            } else {
                State::Over(End { depth, lead: Led::NoLink })
            }
        },
        State::Follow { depth, at, todo, hops } => following(
            depth,
            follow::next_course(at, todo, hops, spot),
        ),
        State::Over(end) => state,
    }
}

/// Whether a path lies under one of the roots, or there are none.
pub open spec fn allowed(place: Seq<u8>, roots: Seq<Seq<u8>>) -> bool {
    roots.len() == 0 || exists|i: int|
        0 <= i < roots.len() && path::under(place, #[trigger] roots[i])
}

/// Whether links lead under one of the roots.
pub open spec fn leads_inside(lead: Led, roots: Seq<Seq<u8>>) -> bool {
    match lead {
        Led::NoLink => true,
        Led::To(parts) => allowed(path::render(parts), roots),
        Led::Lost => false,
    }
}

/// Whether the path that a finished search leads to may be touched: it lies under a root, and so
/// does where its links lead; or there are no roots.
pub open spec fn permitted(
    parts: Seq<Seq<u8>>,
    end: End,
    canonical: Option<Seq<u8>>,
    roots: Seq<Seq<u8>>,
) -> bool {
    roots.len() == 0 || (allowed(real_path(parts, end.depth, canonical), roots) && leads_inside(
        end.lead,
        roots,
    ))
}

/// What a path is refused with that may not be touched.
pub open spec fn refusal(
    parts: Seq<Seq<u8>>,
    end: End,
    canonical: Option<Seq<u8>>,
    roots: Seq<Seq<u8>>,
) -> Failure {
    let place = real_path(parts, end.depth, canonical);
    if !allowed(place, roots) {
        Failure::Outside { path: place, roots }
    } else {
        match end.lead {
            Led::To(parts) => Failure::Outside { path: path::render(parts), roots },
            _ => Failure::Unfollowed { path: place },
        }
    }
}

/// Components of which some make up an ancestor: those of a normal path, whose root is never given
/// up.
pub open spec fn well_split(parts: Seq<Seq<u8>>, depth: nat) -> bool {
    &&& path::settled(parts)
    &&& depth <= parts.len()
    &&& parts.len() > 0 && parts[0] == path::root() ==> depth > 0
}

/// The first `depth` of the components as a path.
fn write_ancestor(parts: &Vec<Vec<u8>>, depth: usize) -> (r: Vec<u8>)
    requires
        depth <= parts@.len(),
    ensures
        r@ == ancestor(bytes::views(parts@), depth as nat),
{
    let none: [u8; 0] = [];
    assert(none@ =~= Seq::empty());
    assert(bytes::views(parts@).subrange(0, depth as int) =~= bytes::views(parts@).take(
        depth as int,
    ));
    path::pushed_all(&none, parts, 0, depth)
}

impl Resolution {
    pub closed spec fn parts(&self) -> Seq<Seq<u8>> {
        bytes::views(self.parts@)
    }

    pub closed spec fn state(&self) -> State {
        let depth = self.depth as nat;
        match self.stage {
            Stage::Climb { dangling } => State::Climb { depth, dangling },
            Stage::Follow(trail) => State::Follow {
                depth,
                at: trail.at(),
                todo: trail.todo(),
                hops: trail.hops(),
            },
        }
    }

    #[verifier::type_invariant]
    spec fn wf(&self) -> bool {
        well_split(self.parts(), self.depth as nat)
    }

    /// The start of the search for `path`, taken against `cwd` when it is relative.
    pub fn begin(path: &str, cwd: &[u8]) -> (r: Resolution)
        ensures
            r.parts() == target_parts(path@, cwd@),
            r.state() == (State::Climb { depth: r.parts().len(), dangling: false }),
    {
        let joined = path::pushed(cwd, path.as_bytes());
        let parts = path::folded_components(joined.as_slice());
        proof {
            path::normal_is_settled(joined@);
        }
        let depth = parts.len();
        Resolution { parts, depth, stage: Stage::Climb { dangling: false } }
    }

    /// The path to look at.
    pub fn candidate(&self) -> (r: Vec<u8>)
        ensures
            r@ == question(self.parts(), self.state()),
    {
        proof {
            use_type_invariant(self);
        }
        match &self.stage {
            Stage::Climb { dangling: _ } => write_ancestor(&self.parts, self.depth),
            Stage::Follow(trail) => trail.candidate(),
        }
    }

    /// The next step, knowing what stands at the candidate. Step by step, the search comes to its
    /// end on any disk that answers so.
    pub fn step(self, entry: &follow::Entry) -> (r: Walk)
        ensures
            match r {
                Walk::Look(next) => {
                    &&& next.parts() == self.parts()
                    &&& next.state() == next_state(self.parts(), self.state(), entry@)
                },
                Walk::Settle(found) => {
                    &&& found.parts() == self.parts()
                    &&& State::Over(found.end()) == next_state(self.parts(), self.state(), entry@)
                },
            },
            forall|disk: spec_fn(Seq<u8>) -> follow::Spot|
                disk(question(self.parts(), self.state())) == entry@ ==> (#[trigger] end_from(
                    self.parts(),
                    self.state(),
                    disk,
                )) == (match r {
                    Walk::Look(next) => end_from(next.parts(), next.state(), disk),
                    Walk::Settle(found) => found.end(),
                }),
    {
        proof {
            use_type_invariant(&self);
        }
        let ghost (all, state) = (self.parts(), self.state());
        let depth = self.depth;
        let followed = match self.stage {
            Stage::Climb { dangling } => {
                proof {
                    lemma_search_goes_on(all, state, entry@);
                }
                let single_slash: [u8; 1] = [path::SLASH];
                assert(single_slash@ =~= path::root());
                assert(depth > 0 ==> all[0] == self.parts@[0]@);
                let climbs = depth > 1 || (depth == 1 && !bytes::same(
                    self.parts[0].as_slice(),
                    &single_slash,
                ));
                let (there, nowhere) = match entry {
                    follow::Entry::Absent => (false, false),
                    follow::Entry::There => (true, false),
                    follow::Entry::Link { target: _, there } => (*there, !*there),
                    follow::Entry::Lost => (false, true),
                };
                let dangling = dangling || nowhere;
                if !there && climbs {
                    return Walk::Look(
                        Resolution {
                            parts: self.parts,
                            depth: depth - 1,
                            stage: Stage::Climb { dangling },
                        },
                    );
                }
                if !dangling {
                    return Walk::Settle(
                        Settled { parts: self.parts, depth, lead: Lead::NoLink },
                    );
                }
                follow::follow(copy_paths(&self.parts))
            },
            Stage::Follow(trail) => {
                let next = trail.step(entry);
                proof {
                    lemma_search_goes_on(all, state, entry@);
                }
                next
            },
        };
        match followed {
            follow::Followed::On(trail) => Walk::Look(
                Resolution { parts: self.parts, depth, stage: Stage::Follow(trail) },
            ),
            follow::Followed::To(at) => Walk::Settle(
                Settled { parts: self.parts, depth, lead: Lead::To(at) },
            ),
            follow::Followed::Lost => Walk::Settle(
                Settled { parts: self.parts, depth, lead: Lead::Lost },
            ),
        }
    }
}

/// A search keeps its end: what `disk` answers to its question leaves it where it was to end.
proof fn lemma_search_goes_on(parts: Seq<Seq<u8>>, state: State, spot: follow::Spot)
    requires
        state matches State::Follow { depth, at, todo, hops } ==> todo.len() > 0
            && !follow::is_move(todo[0]),
    ensures
        forall|disk: spec_fn(Seq<u8>) -> follow::Spot|
            disk(question(parts, state)) == spot ==> (#[trigger] end_from(parts, state, disk))
                == end_from(parts, next_state(parts, state, spot), disk),
{
    assert forall|disk: spec_fn(Seq<u8>) -> follow::Spot|
        disk(question(parts, state)) == spot implies (#[trigger] end_from(parts, state, disk))
        == end_from(parts, next_state(parts, state, spot), disk) by {
        search_keeps_its_end(parts, state, disk);
    }
}

/// A search keeps its end: what `disk` answers to its question leaves it where it was to end.
pub proof fn search_keeps_its_end(
    parts: Seq<Seq<u8>>,
    state: State,
    disk: spec_fn(Seq<u8>) -> follow::Spot,
)
    requires
        state matches State::Follow { depth, at, todo, hops } ==> todo.len() > 0
            && !follow::is_move(todo[0]),
    ensures
        end_from(parts, next_state(parts, state, disk(question(parts, state))), disk) == end_from(
            parts,
            state,
            disk,
        ),
{
    match state {
        State::Climb { depth, dangling } => {
            follow::course_keeps_its_end(
                Seq::empty(),
                parts,
                follow::MAX_LINKS as nat,
                disk,
            );
            lemma_meets_dangling(parts, depth, disk);
        },
        State::Follow { depth, at, todo, hops } => {
            follow::course_keeps_its_end(at, todo, hops, disk);
        },
        State::Over(end) => {},
    }
}

proof fn lemma_found_depth(
    parts: Seq<Seq<u8>>,
    depth: nat,
    disk: spec_fn(Seq<u8>) -> follow::Spot,
)
    ensures
        found_depth(parts, depth, disk) <= depth,
    decreases depth,
{
    if follow::is_there(disk(ancestor(parts, depth))) || !has_parent(parts, depth) {
    } else {
        lemma_found_depth(parts, (depth - 1) as nat, disk);
    }
}

/// A link that leads nowhere stands at the ancestor in question, or is met further up.
proof fn lemma_meets_dangling(
    parts: Seq<Seq<u8>>,
    depth: nat,
    disk: spec_fn(Seq<u8>) -> follow::Spot,
)
    ensures
        ({
            let spot = disk(ancestor(parts, depth));
            let ends = follow::is_there(spot) || !has_parent(parts, depth);
            meets_dangling(parts, depth, disk) == (follow::leads_nowhere(spot) || (!ends
                && meets_dangling(parts, (depth - 1) as nat, disk)))
        }),
{
    let spot = disk(ancestor(parts, depth));
    let ends = follow::is_there(spot) || !has_parent(parts, depth);
    let end = found_depth(parts, depth, disk);
    lemma_found_depth(parts, depth, disk);
    if follow::leads_nowhere(spot) {
        assert(end <= depth && follow::leads_nowhere(disk(ancestor(parts, depth))));
    } else if meets_dangling(parts, depth, disk) {
        let d = choose|d: nat|
            end <= d <= depth && follow::leads_nowhere(disk(#[trigger] ancestor(parts, d)));
        assert(d != depth);
        assert(!ends);
        assert(end <= d <= (depth - 1) as nat && follow::leads_nowhere(disk(ancestor(parts, d))));
    } else if !ends && meets_dangling(parts, (depth - 1) as nat, disk) {
        let d = choose|d: nat|
            end <= d <= (depth - 1) as nat && follow::leads_nowhere(
                disk(#[trigger] ancestor(parts, d)),
            );
        assert(end <= d <= depth && follow::leads_nowhere(disk(ancestor(parts, d))));
    }
}

impl Settled {
    pub closed spec fn parts(&self) -> Seq<Seq<u8>> {
        bytes::views(self.parts@)
    }

    pub closed spec fn end(&self) -> End {
        End { depth: self.depth as nat, lead: self.lead@ }
    }

    #[verifier::type_invariant]
    spec fn wf(&self) -> bool {
        well_split(self.parts(), self.depth as nat)
    }

    /// The ancestor that was found, to canonicalise.
    pub fn ancestor(&self) -> (r: Vec<u8>)
        ensures
            r@ == ancestor(self.parts(), self.end().depth),
    {
        proof {
            use_type_invariant(self);
        }
        write_ancestor(&self.parts, self.depth)
    }
}

/// Whether a path lies under one of the roots, or there are none.
fn is_allowed(place: &[u8], roots: &Vec<Vec<u8>>) -> (r: bool)
    ensures
        r == allowed(place@, bytes::views(roots@)),
{
    let ghost all = bytes::views(roots@);
    if roots.len() == 0 {
        return true;
    }
    let mut i: usize = 0;
    while i < roots.len()
        invariant
            i <= roots@.len(),
            all == bytes::views(roots@),
            forall|k: int| 0 <= k < i ==> !path::under(place@, #[trigger] all[k]),
        decreases roots@.len() - i,
    {
        assert(all[i as int] == roots@[i as int]@);
        if path::is_under(place, roots[i].as_slice()) {
            assert(allowed(place@, all));
            return true;
        }
        i += 1;
    }
    false
}

/// The real path of a finished search: the canonical form of the ancestor that was found, or the
/// ancestor itself where it has none, with the rest of the path behind it. Refused when it lies
/// outside every root, when a link of it that leads nowhere would lead outside every root, or when
/// such a link cannot be followed; without roots nothing is.
pub fn resolve(found: &Settled, canonical: Option<&[u8]>, roots: &Vec<Vec<u8>>) -> (r: Result<
    Vec<u8>,
    FileError,
>)
    ensures
        ({
            let target = canonical_bytes(canonical);
            let all = bytes::views(roots@);
            match r {
                Ok(p) => {
                    &&& permitted(found.parts(), found.end(), target, all)
                    &&& p@ == real_path(found.parts(), found.end().depth, target)
                },
                Err(e) => {
                    &&& !permitted(found.parts(), found.end(), target, all)
                    &&& e@ == refusal(found.parts(), found.end(), target, all)
                },
            }
        }),
{
    proof {
        use_type_invariant(found);
    }
    let base = match canonical {
        Some(p) => vstd::slice::slice_to_vec(p),
        None => found.ancestor(),
    };
    let place = path::pushed_all(base.as_slice(), &found.parts, found.depth, found.parts.len());
    assert(found.parts().subrange(found.depth as int, found.parts().len() as int)
        =~= found.parts().skip(found.depth as int));
    if roots.len() == 0 {
        return Ok(place);
    }
    if !is_allowed(place.as_slice(), roots) {
        return Err(FileError::Outside { path: place, roots: copy_paths(roots) });
    }
    match &found.lead {
        Lead::NoLink => Ok(place),
        Lead::Lost => Err(FileError::Unfollowed { path: place }),
        Lead::To(parts) => {
            let end = write_ancestor(parts, parts.len());
            assert(bytes::views(parts@).take(parts@.len() as int) =~= bytes::views(parts@));
            if is_allowed(end.as_slice(), roots) {
                Ok(place)
            } else {
                Err(FileError::Outside { path: end, roots: copy_paths(roots) })
            }
        },
    }
}

/// The bytes of a canonical path, when there is one.
pub open spec fn canonical_bytes(canonical: Option<&[u8]>) -> Option<Seq<u8>> {
    match canonical {
        Some(p) => Some(p@),
        None => None,
    }
}

/// The canonical form of the first `depth` components, or their path where it has none, with the
/// other components behind it.
pub open spec fn real_path(
    parts: Seq<Seq<u8>>,
    depth: nat,
    canonical: Option<Seq<u8>>,
) -> Seq<u8> {
    path::push_all(
        match canonical {
            Some(p) => p,
            None => ancestor(parts, depth),
        },
        parts.skip(depth as int),
    )
}

/// A copy of a list of paths.
pub fn copy_paths(paths: &Vec<Vec<u8>>) -> (r: Vec<Vec<u8>>)
    ensures
        bytes::views(r@) == bytes::views(paths@),
{
    let mut out: Vec<Vec<u8>> = Vec::new();
    let ghost all = bytes::views(paths@);
    let mut i: usize = 0;
    assert(bytes::views(out@) =~= all.take(0));
    while i < paths.len()
        invariant
            i <= paths@.len(),
            all == bytes::views(paths@),
            bytes::views(out@) == all.take(i as int),
        decreases paths@.len() - i,
    {
        let ghost before = bytes::views(out@);
        let one = vstd::slice::slice_to_vec(paths[i].as_slice());
        out.push(one);
        assert(bytes::views(out@) =~= before.push(one@));
        assert(all.take(i + 1) =~= all.take(i as int).push(one@));
        i += 1;
    }
    assert(all.take(i as int) =~= all);
    out
}

/// The search finds the deepest ancestor that exists, or one without a parent, and none that is
/// deeper exists.
pub proof fn search_finds_deepest(
    parts: Seq<Seq<u8>>,
    depth: nat,
    disk: spec_fn(Seq<u8>) -> follow::Spot,
)
    requires
        depth <= parts.len(),
    ensures
        ({
            let end = found_depth(parts, depth, disk);
            &&& end <= depth
            &&& follow::is_there(disk(ancestor(parts, end))) || !has_parent(parts, end)
            &&& forall|d: nat|
                end < d <= depth ==> !follow::is_there(disk(#[trigger] ancestor(parts, d)))
        }),
    decreases depth,
{
    if follow::is_there(disk(ancestor(parts, depth))) || !has_parent(parts, depth) {
    } else {
        search_finds_deepest(parts, (depth - 1) as nat, disk);
    }
}

/// A link out of every root does not get through: a path is refused when a link that leads nowhere
/// stands at it or above it, and following the links leads out of every root, or cannot be done.
/// (Nothing exists behind a link that leads nowhere.)
pub proof fn links_out_are_refused(
    parts: Seq<Seq<u8>>,
    disk: spec_fn(Seq<u8>) -> follow::Spot,
    link: nat,
    canonical: Option<Seq<u8>>,
    roots: Seq<Seq<u8>>,
)
    requires
        0 < link <= parts.len(),
        follow::leads_nowhere(disk(ancestor(parts, link))),
        forall|d: nat|
            link < d <= parts.len() ==> !follow::is_there(disk(#[trigger] ancestor(parts, d))),
        roots.len() > 0,
        follow::led_to(parts, disk) matches Some(at) ==> !allowed(path::render(at), roots),
    ensures
        !permitted(parts, search_end(parts, disk), canonical, roots),
{
    search_finds_deepest(parts, parts.len(), disk);
    let end = found_depth(parts, parts.len(), disk);
    if end > link {
        assert(!follow::is_there(disk(ancestor(parts, end))));
        assert(!has_parent(parts, end));
    }
    assert(end <= link <= parts.len() && follow::leads_nowhere(disk(ancestor(parts, link))));
    assert(meets_dangling(parts, parts.len(), disk));
}

/// A path under a root is refused for no other reason: where no link was met that leads nowhere, or
/// the links lead under a root, a path may be touched exactly when it lies under a root.
pub proof fn links_in_are_followed(
    parts: Seq<Seq<u8>>,
    disk: spec_fn(Seq<u8>) -> follow::Spot,
    canonical: Option<Seq<u8>>,
    roots: Seq<Seq<u8>>,
)
    requires
        !meets_dangling(parts, parts.len(), disk) || (follow::led_to(parts, disk) matches Some(at)
            && allowed(path::render(at), roots)),
    ensures
        ({
            let end = search_end(parts, disk);
            permitted(parts, end, canonical, roots) == allowed(
                real_path(parts, end.depth, canonical),
                roots,
            )
        }),
{
}

/// A resolved path has the components of the canonical ancestor and then the rest of the wanted
/// path. So when the canonical ancestor has neither `.` nor `..`, the resolved path has neither,
/// and no link or `..` behind the check can lead out of a root.
pub proof fn resolved_components(
    parts: Seq<Seq<u8>>,
    depth: nat,
    canonical: Option<Seq<u8>>,
)
    requires
        path::settled(parts),
        depth <= parts.len(),
        parts.len() > 0 && parts[0] == path::root() ==> depth > 0,
    ensures
        ({
            let base = match canonical {
                Some(p) => path::components(p),
                None => parts.take(depth as int),
            };
            let place = path::components(real_path(parts, depth, canonical));
            &&& place == base + parts.skip(depth as int)
            &&& path::settled(base) ==> path::settled(place)
        }),
{
    let names = parts.skip(depth as int);
    assert forall|i: int| 0 <= i < names.len() implies path::plain(#[trigger] names[i])
        && names[i] != path::dotdot() by {
        assert(names[i] == parts[depth + i]);
    }
    match canonical {
        Some(p) => {
            path::components_of_push_all(p, names);
        },
        None => {
            let front = parts.take(depth as int);
            path::lemma_settled_prefix(parts, depth as int);
            path::components_of_render(front);
            path::components_of_push_all(path::render(front), names);
        },
    }
    let base = match canonical {
        Some(p) => path::components(p),
        None => parts.take(depth as int),
    };
    let place = path::components(real_path(parts, depth, canonical));
    if path::settled(base) {
        assert forall|i: int| 0 <= i < place.len() implies (path::plain(#[trigger] place[i]) || (i
            == 0 && place[i] == path::root())) && place[i] != path::dotdot() by {
            if i < base.len() {
                assert(place[i] == base[i]);
            } else {
                assert(place[i] == names[i - base.len()]);
            }
        }
    }
}

/// The roots confine the file tools: a permitted path lies in no directory that stands apart from
/// every root.
pub proof fn roots_confine(
    parts: Seq<Seq<u8>>,
    end: End,
    canonical: Option<Seq<u8>>,
    roots: Seq<Seq<u8>>,
    other: Seq<u8>,
)
    requires
        roots.len() > 0,
        permitted(parts, end, canonical, roots),
        forall|i: int|
            0 <= i < roots.len() ==> !path::under(#[trigger] roots[i], other) && !path::under(
                other,
                roots[i],
            ),
    ensures
        !path::under(real_path(parts, end.depth, canonical), other),
{
    let place = real_path(parts, end.depth, canonical);
    let i = choose|i: int| 0 <= i < roots.len() && path::under(place, #[trigger] roots[i]);
    path::under_one_branch(place, roots[i], other);
}

/// What stands at each path of a machine, and the canonical form of what exists.
pub ghost struct FileSystem {
    pub spots: spec_fn(Seq<u8>) -> follow::Spot,
    pub canonical: spec_fn(Seq<u8>) -> Option<Seq<u8>>,
}

/// Where `path`, taken against `cwd`, resolves to.
pub open spec fn resolution(
    path: Seq<char>,
    cwd: Seq<u8>,
    fs: FileSystem,
    roots: Seq<Seq<u8>>,
) -> Result<Seq<u8>, Failure> {
    let parts = target_parts(path, cwd);
    let end = search_end(parts, fs.spots);
    let canonical = (fs.canonical)(ancestor(parts, end.depth));
    if permitted(parts, end, canonical, roots) {
        Ok(real_path(parts, end.depth, canonical))
    } else {
        Err(refusal(parts, end, canonical, roots))
    }
}

/// What a canonical form is, for the path of settled components: that path exists; the form is
/// rooted, settled and its own canonical form, and no link stands in it; following the links of the
/// path leads to it; and the same stands behind the one as behind the other.
pub open spec fn canonical_is_sound(fs: FileSystem, parts: Seq<Seq<u8>>) -> bool {
    (fs.canonical)(path::render(parts)) matches Some(c) ==> {
        let own = path::components(c);
        &&& follow::is_there((fs.spots)(path::render(parts)))
        &&& path::rooted(c) && path::settled(own) && path::render(own) == c
        &&& (fs.spots)(c) is There
        &&& (fs.canonical)(c) == Some(c)
        &&& follow::free_of_links(own, fs.spots)
        &&& follow::led_to(parts, fs.spots) == Some(own)
        &&& forall|names: Seq<Seq<u8>>|
            names.len() > 0 ==> (fs.spots)(#[trigger] path::render(own + names)) == (fs.spots)(
                path::render(parts + names),
            )
    }
}

/// Whether this holds of every path.
pub open spec fn sound(fs: FileSystem) -> bool {
    forall|parts: Seq<Seq<u8>>| path::settled(parts) ==> #[trigger] canonical_is_sound(fs, parts)
}

/// Roots only refuse: what resolves under some roots resolves to the same path under more, and
/// without any.
pub proof fn roots_only_refuse(
    path: Seq<char>,
    cwd: Seq<u8>,
    fs: FileSystem,
    roots: Seq<Seq<u8>>,
    more: Seq<Seq<u8>>,
)
    requires
        roots.len() > 0,
        resolution(path, cwd, fs, roots) is Ok,
        forall|i: int| 0 <= i < roots.len() ==> more.contains(#[trigger] roots[i]),
    ensures
        resolution(path, cwd, fs, more) == resolution(path, cwd, fs, roots),
        resolution(path, cwd, fs, Seq::empty()) == resolution(path, cwd, fs, roots),
{
    let parts = target_parts(path, cwd);
    let end = search_end(parts, fs.spots);
    let canonical = (fs.canonical)(ancestor(parts, end.depth));
    lemma_allowed_by_more(real_path(parts, end.depth, canonical), roots, more);
    if let Led::To(at) = end.lead {
        lemma_allowed_by_more(path::render(at), roots, more);
    }
}

proof fn lemma_allowed_by_more(place: Seq<u8>, roots: Seq<Seq<u8>>, more: Seq<Seq<u8>>)
    requires
        roots.len() > 0,
        allowed(place, roots),
        forall|i: int| 0 <= i < roots.len() ==> more.contains(#[trigger] roots[i]),
    ensures
        allowed(place, more),
{
    let i = choose|i: int| 0 <= i < roots.len() && path::under(place, #[trigger] roots[i]);
    assert(more.contains(roots[i]));
    let k = choose|k: int| 0 <= k < more.len() && more[k] == roots[i];
    assert(path::under(place, more[k]));
}

/// A resolved path resolves to itself, on the same machine and from any absolute directory.
pub proof fn resolved_resolves_to_itself(
    path: Seq<char>,
    cwd: Seq<u8>,
    other_cwd: Seq<u8>,
    fs: FileSystem,
    roots: Seq<Seq<u8>>,
    place: Seq<u8>,
)
    requires
        path::rooted(cwd),
        path::rooted(other_cwd),
        sound(fs),
        resolution(path, cwd, fs, roots) == Ok::<Seq<u8>, Failure>(place),
        roots.len() > 0,
        valid_utf8(place),
    ensures
        resolution(decode_utf8(place), other_cwd, fs, roots) == Ok::<Seq<u8>, Failure>(place),
{
    let joined = path::push(cwd, encode_utf8(path));
    let parts = target_parts(path, cwd);
    let end = search_end(parts, fs.spots);
    let depth = end.depth;
    let found = ancestor(parts, depth);
    let canonical = (fs.canonical)(found);
    let front = parts.take(depth as int);
    let names = parts.skip(depth as int);
    path::normal_is_settled(joined);
    assert(path::rooted(joined));
    path::normal_keeps_root(joined);
    path::lemma_rooted_first(path::normal(joined));
    assert(parts == path::components(path::normal(joined)));
    assert(parts.len() > 0 && parts[0] == path::root());
    search_finds_deepest(parts, parts.len(), fs.spots);
    lemma_found_above_root(parts, parts.len(), fs.spots);
    resolved_components(parts, depth, canonical);
    path::lemma_settled_prefix(parts, depth as int);
    assert(canonical_is_sound(fs, front));
    assert(front + names =~= parts);
    decode_utf8_encode_utf8(place);
    let now = path::components(place);
    match canonical {
        None => {
            assert(place == path::render(parts)) by {
                path::lemma_push_all_split(Seq::empty(), parts, depth as int);
            }
            assert(now == parts);
            assert(path::rooted(place)) by {
                path::lemma_rooted_of_first(place);
            }
            path::lemma_folded_same(parts);
            assert(path::push(other_cwd, place) == place);
            assert(target_parts(decode_utf8(place), other_cwd) == parts);
        },
        Some(c) => {
            let own = path::components(c);
            assert(now == own + names);
            path::lemma_rooted_first(c);
            assert(now[0] == own[0]);
            path::lemma_rooted_of_first(place);
            path::lemma_folded_same(now);
            assert(path::push(other_cwd, place) == place);
            assert(target_parts(decode_utf8(place), other_cwd) == now);
            lemma_same_search(parts, depth, own, fs, names.len());
            assert(now.take(own.len() as int) =~= own);
            assert(now.skip(own.len() as int) =~= names);
            assert(ancestor(now, own.len()) == c);
        },
    }
}

/// A search from under a root never gives the root up.
proof fn lemma_found_above_root(
    parts: Seq<Seq<u8>>,
    depth: nat,
    disk: spec_fn(Seq<u8>) -> follow::Spot,
)
    requires
        parts.len() > 0,
        0 < depth <= parts.len(),
        parts[0] == path::root(),
    ensures
        found_depth(parts, depth, disk) > 0,
    decreases depth,
{
    if follow::is_there(disk(ancestor(parts, depth))) || !has_parent(parts, depth) {
    } else {
        lemma_found_above_root(parts, (depth - 1) as nat, disk);
    }
}

/// The search for a path that begins with a canonical form ends as the one for the path that has
/// it.
proof fn lemma_same_search(
    parts: Seq<Seq<u8>>,
    depth: nat,
    own: Seq<Seq<u8>>,
    fs: FileSystem,
    count: nat,
)
    requires
        path::settled(parts),
        0 < depth <= parts.len(),
        depth == found_depth(parts, parts.len(), fs.spots),
        count == parts.len() - depth,
        own.len() > 0,
        (fs.canonical)(ancestor(parts, depth)) matches Some(c) && own == path::components(c),
        canonical_is_sound(fs, parts.take(depth as int)),
        !(search_end(parts, fs.spots).lead is Lost),
    ensures
        ({
            let now = own + parts.skip(depth as int);
            search_end(now, fs.spots) == (End {
                depth: own.len(),
                lead: search_end(parts, fs.spots).lead,
            })
        }),
{
    let front = parts.take(depth as int);
    let names = parts.skip(depth as int);
    let now = own + names;
    let spots = fs.spots;
    assert(front + names =~= parts);
    search_finds_deepest(parts, parts.len(), spots);
    assert(now.take(own.len() as int) =~= own);
    assert forall|k: nat| 0 < k <= count implies spots(#[trigger] ancestor(now, own.len() + k))
        == spots(ancestor(parts, depth + k)) by {
        let some = names.take(k as int);
        assert(now.take((own.len() + k) as int) =~= own + some);
        assert(parts.take((depth + k) as int) =~= front + some);
    }
    lemma_climbs_to(parts, now, depth, own.len(), spots, count);
    assert(meets_dangling(now, now.len(), spots) == meets_dangling(parts, parts.len(), spots)) by {
        if meets_dangling(parts, parts.len(), spots) {
            let d = choose|d: nat|
                depth <= d <= parts.len() && follow::leads_nowhere(
                    spots(#[trigger] ancestor(parts, d)),
                );
            assert(d != depth);
            let k = (d - depth) as nat;
            assert(spots(ancestor(now, own.len() + k)) == spots(ancestor(parts, depth + k)));
        }
        if meets_dangling(now, now.len(), spots) {
            let d = choose|d: nat|
                own.len() <= d <= now.len() && follow::leads_nowhere(
                    spots(#[trigger] ancestor(now, d)),
                );
            assert(d != own.len());
            let k = (d - own.len()) as nat;
            assert(spots(ancestor(now, own.len() + k)) == spots(ancestor(parts, depth + k)));
            assert(follow::leads_nowhere(spots(ancestor(parts, depth + k))));
        }
    }
    if meets_dangling(parts, parts.len(), spots) {
        let most = follow::MAX_LINKS as nat;
        let none = Seq::<Seq<u8>>::empty();
        follow::landing_of_concat(none, front, names, most, spots);
        follow::landing_of_concat(none, own, names, most, spots);
        assert(own.take(0) =~= none);
        assert(own.skip(0) =~= own);
        follow::landing_without_links(own, 0, most, spots);
        if let Some((mid, left)) = follow::landing(none, front, most, spots) {
            assert(mid == own);
            follow::landing_spends(none, front, most, spots);
            follow::landing_with_more(own, names, left, (most - left) as nat, spots);
        }
    }
}

proof fn lemma_climbs_to(
    parts: Seq<Seq<u8>>,
    now: Seq<Seq<u8>>,
    depth: nat,
    own: nat,
    spots: spec_fn(Seq<u8>) -> follow::Spot,
    k: nat,
)
    requires
        depth + k <= parts.len(),
        own > 0,
        follow::is_there(spots(ancestor(now, own))),
        forall|d: nat|
            depth < d <= parts.len() ==> !follow::is_there(spots(#[trigger] ancestor(parts, d))),
        forall|j: nat|
            0 < j <= k ==> spots(#[trigger] ancestor(now, own + j)) == spots(
                ancestor(parts, depth + j),
            ),
    ensures
        found_depth(now, own + k, spots) == own,
    decreases k,
{
    if k > 0 {
        assert(spots(ancestor(now, own + k)) == spots(ancestor(parts, depth + k)));
        lemma_climbs_to(parts, now, depth, own, spots, (k - 1) as nat);
        assert(((own + k) - 1) as nat == own + (k - 1) as nat);
    }
}

/// A line as it is shown: cut when it is too long.
pub open spec fn shown_line(line: Seq<char>) -> Seq<char> {
    if line.len() > MAX_LINE {
        line.take(MAX_LINE as int) + "… [line cut at 2000 characters]"@
    } else {
        line
    }
}

/// The row for the line with this index: its number, counted from one, a tab, and the line.
pub open spec fn row(index: int, line: Seq<char>) -> Seq<char> {
    number::right_aligned(number::decimal((index + 1) as nat), 6) + "\t"@ + shown_line(line)
        + "\n"@
}

/// The rows for the lines `from..to`.
pub open spec fn rows(lines: Seq<Seq<char>>, from: int, to: int) -> Seq<char>
    decreases to - from,
{
    if from >= to {
        Seq::empty()
    } else {
        rows(lines, from, to - 1) + row(to - 1, lines[to - 1])
    }
}

/// The number of the first line wanted.
pub open spec fn first_line(offset: Option<usize>) -> nat {
    match offset {
        Some(n) if n > 0 => n as nat,
        _ => 1,
    }
}

/// How many lines are wanted.
pub open spec fn line_limit(limit: Option<usize>) -> nat {
    match limit {
        Some(n) => n as nat,
        None => DEFAULT_LIMIT as nat,
    }
}

/// The number of the last line shown.
pub open spec fn last_line(start: nat, limit: nat, total: nat) -> nat {
    if start - 1 + limit < total {
        (start - 1 + limit) as nat
    } else {
        total
    }
}

/// The note on the lines that are left when `shown` of `total` have been passed.
pub open spec fn more_note(shown: nat, total: nat) -> Seq<char> {
    if shown < total {
        "["@ + number::decimal((total - shown) as nat) + " more lines; read from offset "@
            + number::decimal(shown + 1) + "]\n"@
    } else {
        Seq::empty()
    }
}

/// What `read` gives for a text: the wanted lines in rows, then the note on the lines left; or a
/// failure when the first wanted line is behind the last one.
pub open spec fn window(
    path: Seq<u8>,
    content: Seq<char>,
    start: nat,
    limit: nat,
) -> Result<Seq<char>, Failure> {
    let all = text::lines(content);
    let end = last_line(start, limit, all.len());
    if start > all.len() {
        Err(Failure::PastEnd { path, total: all.len(), start })
    } else {
        Ok(rows(all, start - 1, end as int) + more_note(end, all.len()))
    }
}

/// What a tool gave, by its text or its failure.
pub open spec fn outcome(r: Result<String, FileError>) -> Result<Seq<char>, Failure> {
    match r {
        Ok(s) => Ok(s@),
        Err(e) => Err(e@),
    }
}

/// The row for one line.
fn write_row(index: usize, line: &str) -> (r: String)
    ensures
        r@ == row(index as int, line@),
{
    let digits = number::write_decimal(index as u128 + 1);
    let mut out = number::align_right(digits.as_str(), 6);
    out.append("\t");
    let cs = text::chars_of(line);
    if cs.len() > MAX_LINE {
        let cut = text::string_of(cs.as_slice(), 0, MAX_LINE);
        assert(cut@ =~= line@.take(MAX_LINE as int));
        out.append(cut.as_str());
        out.append("… [line cut at 2000 characters]");
    } else {
        out.append(line);
    }
    out.append("\n");
    assert(out@ =~= row(index as int, line@));
    out
}

/// The text's lines from `offset` (counted from one), `limit` of them, numbered like `cat -n`.
pub fn read_text(
    path: &[u8],
    content: &str,
    offset: Option<usize>,
    limit: Option<usize>,
) -> (r: Result<String, FileError>)
    ensures
        outcome(r) == window(path@, content@, first_line(offset), line_limit(limit)),
{
    let start = match offset {
        Some(n) => if n > 0 {
            n
        } else {
            1
        },
        None => 1,
    };
    let limit = match limit {
        Some(n) => n,
        None => DEFAULT_LIMIT,
    };
    let lines = text::split_lines(content);
    let ghost all = text::lines(content@);
    let total = lines.len();
    assert(total == all.len());
    if start > total {
        return Err(
            FileError::PastEnd { path: vstd::slice::slice_to_vec(path), total, start },
        );
    }
    let end: usize = if limit < total - (start - 1) {
        start - 1 + limit
    } else {
        total
    };
    let mut out = String::new();
    let mut i: usize = start - 1;
    while i < end
        invariant
            start - 1 <= i <= end <= total,
            start >= 1,
            total == lines@.len(),
            all == text::texts(lines@),
            out@ == rows(all, start - 1, i as int),
        decreases end - i,
    {
        let one = write_row(i, lines[i].as_str());
        assert(all[i as int] == lines@[i as int]@);
        out.append(one.as_str());
        i += 1;
    }
    if end < total {
        let left = number::write_decimal((total - end) as u128);
        let next = number::write_decimal(end as u128 + 1);
        let ghost body = out@;
        out.append("[");
        out.append(left.as_str());
        out.append(" more lines; read from offset ");
        out.append(next.as_str());
        out.append("]\n");
        assert(out@ =~= body + more_note(end as nat, total as nat));
    } else {
        assert(out@ =~= out@ + more_note(end as nat, total as nat));
    }
    Ok(out)
}

/// What stands at a path.
#[derive(Debug)]
pub enum Found {
    Directory,
    /// Not a directory, and its content could not be read.
    Unreadable,
    Content(Vec<u8>),
}

/// What `read` gives for what stands at a path.
pub open spec fn reading(path: Seq<u8>, found: Found, start: nat, limit: nat) -> Result<
    Seq<char>,
    Failure,
> {
    match found {
        Found::Directory => Err(Failure::Directory { path }),
        Found::Unreadable => Err(Failure::Unreadable { path }),
        Found::Content(content) => if content@.len() == 0 {
            Err(Failure::Empty { path })
        } else {
            window(path, bytes::shown(content@), start, limit)
        },
    }
}

/// The file's lines from `offset` (counted from one), `limit` of them, numbered like `cat -n`.
pub fn read(path: &[u8], found: &Found, offset: Option<usize>, limit: Option<usize>) -> (r: Result<
    String,
    FileError,
>)
    ensures
        outcome(r) == reading(path@, *found, first_line(offset), line_limit(limit)),
{
    match found {
        Found::Directory => Err(FileError::Directory { path: vstd::slice::slice_to_vec(path) }),
        Found::Unreadable => Err(FileError::Unreadable { path: vstd::slice::slice_to_vec(path) }),
        Found::Content(content) => {
            if content.len() == 0 {
                return Err(FileError::Empty { path: vstd::slice::slice_to_vec(path) });
            }
            let shown = bytes::lossy(content.as_slice());
            read_text(path, shown.as_str(), offset, limit)
        },
    }
}

/// Rows of neighbouring ranges stand one behind the other.
pub proof fn rows_continue(lines: Seq<Seq<char>>, from: int, mid: int, to: int)
    requires
        from <= mid <= to,
    ensures
        rows(lines, from, mid) + rows(lines, mid, to) == rows(lines, from, to),
    decreases to - mid,
{
    if mid == to {
        assert(rows(lines, mid, to) =~= Seq::empty());
        assert(rows(lines, from, mid) + rows(lines, mid, to) =~= rows(lines, from, to));
    } else {
        rows_continue(lines, from, mid, to - 1);
        assert(rows(lines, from, mid) + rows(lines, mid, to) =~= (rows(lines, from, mid) + rows(
            lines,
            mid,
            to - 1,
        )) + row(to - 1, lines[to - 1]));
    }
}

/// Reading on where the note says shows what was left: the rows of the first reading without its
/// note, and then all of the second reading, are one reading with both limits together.
pub proof fn reading_on_continues(
    path: Seq<u8>,
    content: Seq<char>,
    start: nat,
    limit: nat,
    next_limit: nat,
)
    requires
        1 <= start,
        start - 1 + limit < text::lines(content).len(),
    ensures
        ({
            let all = text::lines(content);
            let shown = last_line(start, limit, all.len());
            let first = rows(all, start - 1, shown as int);
            &&& window(path, content, start, limit) == Ok::<Seq<char>, Failure>(
                first + more_note(shown, all.len()),
            )
            &&& window(path, content, shown + 1, next_limit) matches Ok(second)
            &&& window(path, content, start, limit + next_limit) == Ok::<Seq<char>, Failure>(
                first + second,
            )
        }),
{
    let all = text::lines(content);
    let shown = last_line(start, limit, all.len());
    let end = last_line(shown + 1, next_limit, all.len());
    rows_continue(all, start - 1, shown as int, end as int);
    let first = rows(all, start - 1, shown as int);
    let second = rows(all, shown as int, end as int);
    assert(first + (second + more_note(end, all.len())) =~= (first + second) + more_note(
        end,
        all.len(),
    ));
}

/// What was written is what is read: a file that holds the bytes of a text is read as that text.
pub proof fn reading_of_written(
    path: Seq<u8>,
    found: Found,
    content: Seq<char>,
    start: nat,
    limit: nat,
)
    requires
        found matches Found::Content(held) && held@ == encode_utf8(content),
        content.len() > 0,
    ensures
        reading(path, found, start, limit) == window(path, content, start, limit),
{
    bytes::shown_of_encoded(content);
    encode_utf8_first_scalar(content);
    assert(encode_utf8(content).len() > 0);
}

/// What the files that a program writes new contents to end with.
pub open spec fn temp_suffix(program: Seq<char>) -> Seq<u8> {
    encode_utf8("."@ + program + ".tmp"@)
}

/// The extension of the file that a new content is first written to: the old extension, where it
/// is UTF-8, and the program's suffix behind it.
pub open spec fn temp_extension(path: Seq<u8>, program: Seq<char>) -> Seq<u8> {
    match path::extension(path) {
        Some(ext) if valid_utf8(ext) => ext + temp_suffix(program),
        _ => temp_suffix(program),
    }
}

/// The file that a new content of `path` is first written to.
pub open spec fn temp_path(path: Seq<u8>, program: Seq<char>) -> Seq<u8> {
    path::with_extension(path, temp_extension(path, program))
}

/// How a file is replaced: its parents are created, the content is written to a file beside it,
/// and that file is renamed into its place.
#[derive(Debug)]
pub struct WritePlan {
    pub path: Vec<u8>,
    /// The directory to create, with its parents.
    pub parent: Option<Vec<u8>>,
    /// The file that the content is written to.
    pub temp: Vec<u8>,
}

/// A step of replacing a file.
#[derive(Debug, Clone, Copy, PartialEq, Eq, Structural)]
pub enum WriteStep {
    CreateParent,
    WriteTemp,
    Replace,
    Done,
}

/// What a `WritePlan` says.
pub ghost struct Replacement {
    pub path: Seq<u8>,
    pub parent: Option<Seq<u8>>,
    pub temp: Seq<u8>,
}

impl View for WritePlan {
    type V = Replacement;

    open spec fn view(&self) -> Replacement {
        Replacement {
            path: self.path@,
            parent: match self.parent {
                Some(dir) => Some(dir@),
                None => None,
            },
            temp: self.temp@,
        }
    }
}

/// How the program of this name replaces the whole file at `path`.
pub open spec fn replacement(path: Seq<u8>, program: Seq<char>) -> Replacement {
    Replacement { path, parent: path::parent(path), temp: temp_path(path, program) }
}

/// The step to begin with.
pub open spec fn first_step(w: Replacement) -> WriteStep {
    if w.parent is Some {
        WriteStep::CreateParent
    } else {
        WriteStep::WriteTemp
    }
}

/// The step after one that succeeded.
pub open spec fn step_after(step: WriteStep) -> WriteStep {
    match step {
        WriteStep::CreateParent => WriteStep::WriteTemp,
        WriteStep::WriteTemp => WriteStep::Replace,
        WriteStep::Replace => WriteStep::Done,
        WriteStep::Done => WriteStep::Done,
    }
}

/// The failure of a step that did not succeed.
pub open spec fn step_failure(w: Replacement, step: WriteStep) -> Failure {
    match step {
        WriteStep::CreateParent => Failure::CannotCreate {
            path: match w.parent {
                Some(dir) => dir,
                None => Seq::empty(),
            },
        },
        WriteStep::WriteTemp => Failure::CannotWrite { path: w.temp },
        _ => Failure::CannotReplace { path: w.path },
    }
}

impl WritePlan {
    /// The step to begin with.
    pub fn first(&self) -> (r: WriteStep)
        ensures
            r == first_step(self@),
    {
        if self.parent.is_some() {
            WriteStep::CreateParent
        } else {
            WriteStep::WriteTemp
        }
    }

    /// The step after `step`, or the failure when that step did not succeed.
    pub fn next(&self, step: WriteStep, succeeded: bool) -> (r: Result<WriteStep, FileError>)
        ensures
            match r {
                Ok(next) => (succeeded || step == WriteStep::Done) && next == step_after(step),
                Err(e) => !succeeded && step != WriteStep::Done && e@ == step_failure(self@, step),
            },
    {
        match step {
            WriteStep::Done => Ok(WriteStep::Done),
            WriteStep::CreateParent => if succeeded {
                Ok(WriteStep::WriteTemp)
            } else {
                let path = match &self.parent {
                    Some(dir) => vstd::slice::slice_to_vec(dir.as_slice()),
                    None => Vec::new(),
                };
                Err(FileError::CannotCreate { path })
            },
            WriteStep::WriteTemp => if succeeded {
                Ok(WriteStep::Replace)
            } else {
                Err(
                    FileError::CannotWrite {
                        path: vstd::slice::slice_to_vec(self.temp.as_slice()),
                    },
                )
            },
            WriteStep::Replace => if succeeded {
                Ok(WriteStep::Done)
            } else {
                Err(
                    FileError::CannotReplace {
                        path: vstd::slice::slice_to_vec(self.path.as_slice()),
                    },
                )
            },
        }
    }
}

/// The plan of the program of this name to replace the whole file at `path`.
pub fn write(path: &[u8], program: &str) -> (r: WritePlan)
    ensures
        r@ == replacement(path@, program@),
{
    let mut ext: Vec<u8> = Vec::new();
    if let Some(old) = path::extension_of_path(path) {
        if bytes::utf8(old.as_slice()).is_some() {
            ext = old;
        }
    }
    let mut suffix = ".".to_owned();
    suffix.append(program);
    suffix.append(".tmp");
    bytes::append(&mut ext, suffix.as_str().as_bytes());
    assert(ext@ =~= temp_extension(path@, program@));
    WritePlan {
        path: vstd::slice::slice_to_vec(path),
        parent: path::parent_of(path),
        temp: path::replace_extension(path, ext.as_slice()),
    }
}

/// The new content is written beside the file: for a path that ends with a file name, the file it
/// is written to is another one in the same directory.
pub proof fn temp_is_beside(path: Seq<u8>, program: Seq<char>)
    requires
        path::file_name(path) is Some,
        !program.contains('/'),
    ensures
        path::parent(temp_path(path, program)) == path::parent(path),
        temp_path(path, program) != path::trim_tail(path),
        temp_path(path, program) != path,
        path::file_name(temp_path(path, program)) is Some,
{
    let whole = path::trim_tail(path);
    let temp = temp_path(path, program);
    let ext = temp_extension(path, program);
    let from = path::after_last(whole, path::SLASH);
    let name = path::last_component(path);
    let stem = match path::extension(path) {
        Some(old) => whole.take(whole.len() - old.len() - 1),
        None => whole,
    };
    lemma_suffix_bytes(program);
    path::lemma_extension_place(path);
    assert(temp =~= stem + path::dot() + ext);
    assert(stem.len() > from);
    assert forall|i: int| from <= i < temp.len() implies temp[i] != path::SLASH by {
        if i < stem.len() {
            assert(temp[i] == whole[i]);
        }
    }
    assert(from > 0 ==> temp[from - 1] == whole[from - 1]);
    path::lemma_last_component_is(temp, from as int);
    assert(temp.take(from as int) =~= whole.take(from as int));
    assert(path::last_component(temp) =~= temp.skip(from as int));
    assert(temp.last() != path::DOT);
    assert(path::last_component(temp).last() == temp.last());
    assert(path::dot().last() == path::DOT);
    assert(path::dotdot().last() == path::DOT);
    if temp == whole {
        match path::extension(path) {
            Some(old) => {
                assert(whole.skip(stem.len() as int + 1) =~= old);
                assert(temp.skip(stem.len() as int + 1) =~= ext);
                if valid_utf8(old) {
                    assert(ext.len() > old.len());
                } else {
                    encode_utf8_valid_utf8("."@ + program + ".tmp"@);
                }
            },
            None => {
                assert(temp.len() > whole.len());
            },
        }
    }
}

proof fn lemma_suffix_bytes(program: Seq<char>)
    requires
        !program.contains('/'),
    ensures
        temp_suffix(program).len() > 0,
        temp_suffix(program).last() == 112,
        forall|i: int|
            0 <= i < temp_suffix(program).len() ==> #[trigger] temp_suffix(program)[i]
                != path::SLASH,
{
    let suffix = "."@ + program + ".tmp"@;
    let coded = encode_utf8(suffix);
    reveal_strlit(".");
    reveal_strlit(".tmp");
    is_ascii_chars_encode_utf8(".tmp"@);
    bytes::encode_of_concat("."@ + program, ".tmp"@);
    assert(!suffix.contains('/')) by {
        assert forall|i: int| 0 <= i < suffix.len() implies suffix[i] != '/' by {
            if 1 <= i < 1 + program.len() {
                assert(suffix[i] == program[i - 1]);
                assert(program.contains(program[i - 1]));
            }
        }
    }
    assert forall|i: int| 0 <= i < coded.len() implies #[trigger] coded[i] != path::SLASH by {
        if coded[i] == path::SLASH {
            bytes::slash_of_encoded(suffix, i);
        }
    }
}

/// What a file holds, and its permission bits.
pub ghost struct FileData {
    pub content: Seq<u8>,
    pub mode: nat,
}

/// The files of a machine, by their paths, and its directories, by their components.
pub ghost struct Disk {
    pub files: Map<Seq<u8>, FileData>,
    pub dirs: Set<Seq<Seq<u8>>>,
}

/// What came of a step: whether it succeeded, whether the permissions of the old file could be set,
/// and the disk after it.
pub ghost struct WriteEvent {
    pub succeeded: bool,
    pub mode_set: bool,
    pub disk: Disk,
}

/// Whether a directory and those above it are there.
pub open spec fn dirs_exist(disk: Disk, dir: Seq<u8>) -> bool {
    forall|n: int|
        0 <= n <= path::components(dir).len() ==> disk.dirs.contains(
            #[trigger] path::components(dir).take(n),
        )
}

/// Whether nothing but the file that the content is first written to differs.
pub open spec fn same_but_temp(w: Replacement, before: Disk, after: Disk) -> bool {
    after.files.remove(w.temp) == before.files.remove(w.temp)
}

/// What a step does to the disk, where nobody else writes and no link stands at the two paths. A
/// step that fails may have left something behind: directories, or a part of the file that the
/// content is first written to.
pub open spec fn performs(
    w: Replacement,
    content: Seq<u8>,
    step: WriteStep,
    before: Disk,
    event: WriteEvent,
) -> bool {
    let after = event.disk;
    match step {
        WriteStep::CreateParent => {
            &&& after.files == before.files
            &&& event.succeeded && w.parent is Some ==> dirs_exist(after, w.parent->0)
        },
        WriteStep::WriteTemp => {
            &&& after.dirs == before.dirs
            &&& same_but_temp(w, before, after)
            &&& event.succeeded ==> after.files.contains_key(w.temp) && after.files[w.temp].content
                == content
        },
        WriteStep::Replace => {
            &&& after.dirs == before.dirs
            &&& if event.succeeded {
                after.files == before.files.remove(w.temp).insert(
                    w.path,
                    FileData {
                        content: before.files[w.temp].content,
                        mode: if event.mode_set && before.files.contains_key(w.path) {
                            before.files[w.path].mode
                        } else {
                            before.files[w.temp].mode
                        },
                    },
                )
            } else {
                same_but_temp(w, before, after)
            }
        },
        WriteStep::Done => true,
    }
}

/// How far a replacement has come: the step that is next, or the one that failed, whether the
/// permissions of the old file were set, and the disk.
pub ghost struct Written {
    pub step: WriteStep,
    pub failed: bool,
    pub mode_set: bool,
    pub disk: Disk,
}

/// How far a replacement has come after these steps. Nothing follows the last step or one that
/// failed.
pub open spec fn written(w: Replacement, start: Disk, events: Seq<WriteEvent>) -> Written
    decreases events.len(),
{
    if events.len() == 0 {
        Written { step: first_step(w), failed: false, mode_set: false, disk: start }
    } else {
        let sofar = written(w, start, events.drop_last());
        let event = events.last();
        if sofar.failed || sofar.step == WriteStep::Done {
            sofar
        } else {
            Written {
                step: if event.succeeded {
                    step_after(sofar.step)
                } else {
                    sofar.step
                },
                failed: !event.succeeded,
                mode_set: event.mode_set,
                disk: event.disk,
            }
        }
    }
}

/// Whether each step did to the disk what that step does.
pub open spec fn performed(
    w: Replacement,
    content: Seq<u8>,
    start: Disk,
    events: Seq<WriteEvent>,
) -> bool
    decreases events.len(),
{
    events.len() == 0 || ({
        let sofar = written(w, start, events.drop_last());
        &&& performed(w, content, start, events.drop_last())
        &&& sofar.failed || performs(w, content, sofar.step, sofar.disk, events.last())
    })
}

/// A whole write: once it is done, the path holds exactly the content, with the permissions of the
/// old file where they could be set; the file that the content was first written to is gone, every
/// other file is as it was, and the parent directories are there. Until then, and after a failure,
/// the path is as it was, and so is every file but the one that the content is first written to.
pub proof fn whole_write(
    path: Seq<u8>,
    program: Seq<char>,
    content: Seq<u8>,
    start: Disk,
    events: Seq<WriteEvent>,
)
    requires
        path::file_name(path) is Some,
        !program.contains('/'),
        performed(replacement(path, program), content, start, events),
    ensures
        ({
            let w = replacement(path, program);
            let end = written(w, start, events);
            if end.step == WriteStep::Done {
                &&& !end.failed
                &&& end.disk.files.contains_key(path)
                &&& end.disk.files[path].content == content
                &&& start.files.contains_key(path) && end.mode_set ==> end.disk.files[path].mode
                    == start.files[path].mode
                &&& !end.disk.files.contains_key(w.temp)
                &&& end.disk.files.remove(path) == start.files.remove(w.temp).remove(path)
                &&& path::parent(path) matches Some(dir) ==> dirs_exist(end.disk, dir)
            } else {
                &&& end.disk.files.contains_key(path) == start.files.contains_key(path)
                &&& end.disk.files[path] == start.files[path]
                &&& same_but_temp(w, start, end.disk)
            }
        }),
{
    let w = replacement(path, program);
    temp_is_beside(path, program);
    lemma_write_goes_on(w, content, start, events);
    let end = written(w, start, events);
    if end.step == WriteStep::Done {
        assert(end.disk.files.remove(path) =~= start.files.remove(w.temp).remove(path));
    } else {
        let (a, b) = (end.disk.files.remove(w.temp), start.files.remove(w.temp));
        assert(a.contains_key(path) == b.contains_key(path));
        assert(a[path] == end.disk.files[path]);
        assert(b[path] == start.files[path]);
    }
}

proof fn lemma_write_goes_on(
    w: Replacement,
    content: Seq<u8>,
    start: Disk,
    events: Seq<WriteEvent>,
)
    requires
        w.temp != w.path,
        performed(w, content, start, events),
    ensures
        ({
            let end = written(w, start, events);
            &&& end.step == WriteStep::Done ==> !end.failed && end.disk.files == start.files.remove(
                w.temp,
            ).insert(
                w.path,
                FileData {
                    content,
                    mode: if end.mode_set && start.files.contains_key(w.path) {
                        start.files[w.path].mode
                    } else {
                        end.disk.files[w.path].mode
                    },
                },
            )
            &&& end.step != WriteStep::Done ==> same_but_temp(w, start, end.disk)
            &&& end.step == WriteStep::Replace && !end.failed ==> {
                &&& end.disk.files.contains_key(w.temp)
                &&& end.disk.files[w.temp].content == content
            }
            &&& end.step != WriteStep::CreateParent && w.parent is Some ==> dirs_exist(
                end.disk,
                w.parent->0,
            )
        }),
    decreases events.len(),
{
    if events.len() > 0 {
        let front = events.drop_last();
        lemma_write_goes_on(w, content, start, front);
        let sofar = written(w, start, front);
        let end = written(w, start, events);
        if !sofar.failed && sofar.step == WriteStep::Replace {
            let (a, b) = (sofar.disk.files.remove(w.temp), start.files.remove(w.temp));
            assert(a.contains_key(w.path) == b.contains_key(w.path));
            assert(a[w.path] == sofar.disk.files[w.path]);
            assert(b[w.path] == start.files[w.path]);
        }
    }
}

/// What `edit` gives for the text of a file: the pieces between the places where `old` stands,
/// with `new` between them instead, and how many places there were.
pub open spec fn editing(
    path: Seq<u8>,
    content: Option<Seq<char>>,
    old_text: Seq<char>,
    new_text: Seq<char>,
    replace_all: bool,
) -> Result<(Seq<char>, nat), Failure> {
    if old_text == new_text {
        Err(Failure::SameStrings)
    } else if old_text.len() == 0 {
        Err(Failure::EmptyOldString)
    } else {
        match content {
            None => Err(Failure::Unreadable { path }),
            Some(t) => {
                let kept = text::split_on(t, old_text);
                let count = (kept.len() - 1) as nat;
                if count == 0 {
                    Err(Failure::NotFound { path })
                } else if count > 1 && !replace_all {
                    Err(Failure::Ambiguous { path, count })
                } else {
                    Ok((text::join(kept, new_text), count))
                }
            },
        }
    }
}

/// `old_text` replaced by `new_text` in the content of the file, `None` when it could not be read
/// as text: exactly once unless `replace_all`, a failure when it is absent, ambiguous, empty, or
/// equal to `new_text`. Returns the new content and how many places were replaced.
pub fn edit(
    path: &[u8],
    content: Option<&str>,
    old_text: &str,
    new_text: &str,
    replace_all: bool,
) -> (r: Result<(String, usize), FileError>)
    ensures
        (match r {
            Ok((s, n)) => Ok((s@, n as nat)),
            Err(e) => Err(e@),
        }) == editing(path@, text::opt(content), old_text@, new_text@, replace_all),
{
    if text::same(old_text, new_text) {
        return Err(FileError::SameStrings);
    }
    if old_text.is_empty() {
        return Err(FileError::EmptyOldString);
    }
    match content {
        None => Err(FileError::Unreadable { path: vstd::slice::slice_to_vec(path) }),
        Some(t) => {
            let kept = text::split_at_matches(t, old_text);
            proof {
                text::lemma_split_nonempty(t@, old_text@);
                assert(kept@.len() == text::texts(kept@).len());
            }
            let count = kept.len() - 1;
            if count == 0 {
                Err(FileError::NotFound { path: vstd::slice::slice_to_vec(path) })
            } else if count > 1 && !replace_all {
                Err(FileError::Ambiguous { path: vstd::slice::slice_to_vec(path), count })
            } else {
                Ok((text::joined(&kept, new_text), count))
            }
        },
    }
}

/// An edit changes nothing but the places where the old text stood: with the old text put back
/// between the pieces that an edit keeps, the content is as it was; and the old text stands in
/// none of those pieces.
pub proof fn edit_keeps_the_rest(content: Seq<char>, old_text: Seq<char>)
    requires
        old_text.len() > 0,
    ensures
        text::join(text::split_on(content, old_text), old_text) == content,
        forall|i: int|
            0 <= i < text::split_on(content, old_text).len() ==> text::first_match(
                #[trigger] text::split_on(content, old_text)[i],
                old_text,
            ) is None,
{
    text::split_joins_back(content, old_text);
    text::split_is_complete(content, old_text);
}

/// An edit that is not told to replace every place replaces one: what stands before the first
/// occurrence of the old text and what stands behind it stay.
pub proof fn single_edit(
    path: Seq<u8>,
    content: Seq<char>,
    old_text: Seq<char>,
    new_text: Seq<char>,
)
    requires
        editing(path, Some(content), old_text, new_text, false) is Ok,
    ensures
        ({
            let at = text::first_match(content, old_text);
            &&& at is Some
            &&& editing(path, Some(content), old_text, new_text, false)->Ok_0 == (
                content.take(at->0 as int) + new_text + content.skip(
                    at->0 as int + old_text.len(),
                ),
                1nat,
            )
        }),
{
    let kept = text::split_on(content, old_text);
    text::lemma_split_nonempty(content, old_text);
    let at = text::first_match(content, old_text);
    text::lemma_first_match(content, old_text);
    assert(kept.len() == 2);
    assert(at is Some);
    let tail = content.skip(at->0 as int + old_text.len());
    text::lemma_split_nonempty(tail, old_text);
    assert(kept == seq![content.take(at->0 as int)] + text::split_on(tail, old_text));
    let rest = text::split_on(tail, old_text);
    assert(rest.len() == 1);
    assert(rest[0] == tail) by {
        text::lemma_split_single(tail, old_text);
    }
    assert(kept =~= seq![content.take(at->0 as int), tail]);
    assert(kept.drop_last() =~= seq![content.take(at->0 as int)]);
    assert(text::join(kept.drop_last(), new_text) == content.take(at->0 as int));
}

} // verus!
