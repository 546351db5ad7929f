//! Where a path leads when its links are followed, component by component. What stands at each path
//! on the way is the caller's to see; the answer is handed in here.

use vstd::prelude::*;

use crate::bytes;
use crate::path;

verus! {

/// How many links are followed on one way. More are taken for a loop.
pub const MAX_LINKS: usize = 40;

/// What stands at a path.
#[derive(Debug)]
pub enum Entry {
    /// Nothing.
    Absent,
    /// Something that is no link.
    There,
    /// A link to `target`; `there` says whether it leads to something that exists.
    Link { target: Vec<u8>, there: bool },
    /// A link whose target cannot be read.
    Lost,
}

/// What an `Entry` says.
pub ghost enum Spot {
    Absent,
    There,
    Link { target: Seq<u8>, there: bool },
    Lost,
}

impl View for Entry {
    type V = Spot;

    open spec fn view(&self) -> Spot {
        match *self {
            Entry::Absent => Spot::Absent,
            Entry::There => Spot::There,
            Entry::Link { target, there } => Spot::Link { target: target@, there },
            Entry::Lost => Spot::Lost,
        }
    }
}

/// Whether something exists at a path once its links are followed.
pub open spec fn is_there(spot: Spot) -> bool {
    spot is There || (spot matches Spot::Link { target, there } && there)
}

/// Whether a link stands at a path that leads nowhere.
pub open spec fn leads_nowhere(spot: Spot) -> bool {
    spot is Lost || (spot matches Spot::Link { target, there } && !there)
}

/// Whether a component moves the way by itself: the root, `.` or `..`.
pub open spec fn is_move(part: Seq<u8>) -> bool {
    part == path::root() || part == path::dot() || part == path::dotdot()
}

/// Where a component that moves the way leads from `at`.
pub open spec fn moved(at: Seq<Seq<u8>>, part: Seq<u8>) -> Seq<Seq<u8>> {
    if part == path::root() {
        seq![path::root()]
    } else {
        path::fold_one(at, part)
    }
}

/// Where the components `todo` lead from `at`, which holds no links, when `disk` says what stands
/// at each path and at most `hops` links may be followed; and how many may still be followed there.
/// `None` when there are more, or one cannot be read.
pub open spec fn landing(
    at: Seq<Seq<u8>>,
    todo: Seq<Seq<u8>>,
    hops: nat,
    disk: spec_fn(Seq<u8>) -> Spot,
) -> Option<(Seq<Seq<u8>>, nat)>
    decreases hops, todo.len(),
{
    if todo.len() == 0 {
        Some((at, hops))
    } else if is_move(todo[0]) {
        landing(moved(at, todo[0]), todo.skip(1), hops, disk)
    } else {
        match disk(path::render(at.push(todo[0]))) {
            Spot::Link { target, there } => if hops == 0 {
                None
            } else {
                landing(at, path::components(target) + todo.skip(1), (hops - 1) as nat, disk)
            },
            Spot::Lost => None,
            _ => landing(at.push(todo[0]), todo.skip(1), hops, disk),
        }
    }
}

/// Where the links of a path lead, by its components; `None` when they cannot all be followed.
pub open spec fn led_to(parts: Seq<Seq<u8>>, disk: spec_fn(Seq<u8>) -> Spot) -> Option<
    Seq<Seq<u8>>,
> {
    match landing(Seq::empty(), parts, MAX_LINKS as nat, disk) {
        Some((at, left)) => Some(at),
        None => None,
    }
}

/// `at` and `todo` with the components taken that move the way, up to the first name.
pub open spec fn past_moves(at: Seq<Seq<u8>>, todo: Seq<Seq<u8>>) -> (Seq<Seq<u8>>, Seq<Seq<u8>>)
    decreases todo.len(),
{
    if todo.len() > 0 && is_move(todo[0]) {
        past_moves(moved(at, todo[0]), todo.skip(1))
    } else {
        (at, todo)
    }
}

/// How far a way has come: on it, with a name to look at next; at its end; or lost.
pub ghost enum Course {
    On { at: Seq<Seq<u8>>, todo: Seq<Seq<u8>>, hops: nat },
    To(Seq<Seq<u8>>),
    Lost,
}

/// How far a way has come that is at `at` with these components before it.
pub open spec fn course(at: Seq<Seq<u8>>, todo: Seq<Seq<u8>>, hops: nat) -> Course {
    let (a, t) = past_moves(at, todo);
    if t.len() == 0 {
        Course::To(a)
    } else {
        Course::On { at: a, todo: t, hops }
    }
}

/// How far a way has come once it is known what stands at the next name: a link's target is taken
/// in its place, and anything else is passed.
pub open spec fn next_course(
    at: Seq<Seq<u8>>,
    todo: Seq<Seq<u8>>,
    hops: nat,
    spot: Spot,
) -> Course {
    match spot {
        Spot::Link { target, there } => if hops == 0 {
            Course::Lost
        } else {
            course(at, path::components(target) + todo.skip(1), (hops - 1) as nat)
        },
        Spot::Lost => Course::Lost,
        _ => course(at.push(todo[0]), todo.skip(1), hops),
    }
}

/// Where a way ends that has come so far.
pub open spec fn course_end(c: Course, disk: spec_fn(Seq<u8>) -> Spot) -> Option<Seq<Seq<u8>>> {
    match c {
        Course::To(at) => Some(at),
        Course::Lost => None,
        Course::On { at, todo, hops } => match landing(at, todo, hops, disk) {
            Some((end, left)) => Some(end),
            None => None,
        },
    }
}

/// Components as a way meets them: names, `.`, `..`, and the root wherever a target begins with it.
pub open spec fn loose(todo: Seq<Seq<u8>>) -> bool {
    forall|i: int|
        0 <= i < todo.len() ==> {
            ||| path::plain(#[trigger] todo[i])
            ||| todo[i] == path::root()
            ||| todo[i] == path::dot()
        }
}

proof fn lemma_past_moves(
    at: Seq<Seq<u8>>,
    todo: Seq<Seq<u8>>,
    hops: nat,
    disk: spec_fn(Seq<u8>) -> Spot,
)
    ensures
        ({
            let (a, t) = past_moves(at, todo);
            landing(a, t, hops, disk) == landing(at, todo, hops, disk)
        }),
    decreases todo.len(),
{
    if todo.len() > 0 && is_move(todo[0]) {
        lemma_past_moves(moved(at, todo[0]), todo.skip(1), hops, disk);
    }
}

/// A way keeps its end: from its start on, and with each answer that `disk` gives.
pub proof fn course_keeps_its_end(
    at: Seq<Seq<u8>>,
    todo: Seq<Seq<u8>>,
    hops: nat,
    disk: spec_fn(Seq<u8>) -> Spot,
)
    ensures
        course_end(course(at, todo, hops), disk) == (match landing(at, todo, hops, disk) {
            Some((end, left)) => Some(end),
            None => None,
        }),
        todo.len() > 0 && !is_move(todo[0]) ==> course_end(
            next_course(at, todo, hops, disk(path::render(at.push(todo[0])))),
            disk,
        ) == (match landing(at, todo, hops, disk) {
            Some((end, left)) => Some(end),
            None => None,
        }),
{
    lemma_past_moves(at, todo, hops, disk);
    if todo.len() > 0 && !is_move(todo[0]) {
        match disk(path::render(at.push(todo[0]))) {
            Spot::Link { target, there } => if hops > 0 {
                lemma_past_moves(
                    at,
                    path::components(target) + todo.skip(1),
                    (hops - 1) as nat,
                    disk,
                );
            },
            Spot::Lost => {},
            _ => {
                lemma_past_moves(at.push(todo[0]), todo.skip(1), hops, disk);
            },
        }
    }
}

/// A way in two parts is the second from where the first leads.
pub proof fn landing_of_concat(
    at: Seq<Seq<u8>>,
    first: Seq<Seq<u8>>,
    second: Seq<Seq<u8>>,
    hops: nat,
    disk: spec_fn(Seq<u8>) -> Spot,
)
    ensures
        landing(at, first + second, hops, disk) == (match landing(at, first, hops, disk) {
            Some((mid, left)) => landing(mid, second, left, disk),
            None => None,
        }),
    decreases hops, first.len(),
{
    if first.len() == 0 {
        assert(first + second =~= second);
    } else {
        assert((first + second).skip(1) =~= first.skip(1) + second);
        if is_move(first[0]) {
            landing_of_concat(moved(at, first[0]), first.skip(1), second, hops, disk);
        } else {
            match disk(path::render(at.push(first[0]))) {
                Spot::Link { target, there } => if hops > 0 {
                    let taken = path::components(target) + first.skip(1);
                    assert(path::components(target) + (first.skip(1) + second) =~= taken + second);
                    landing_of_concat(at, taken, second, (hops - 1) as nat, disk);
                },
                Spot::Lost => {},
                _ => {
                    landing_of_concat(at.push(first[0]), first.skip(1), second, hops, disk);
                },
            }
        }
    }
}

/// With more links to follow, a way that ends ends there too.
pub proof fn landing_with_more(
    at: Seq<Seq<u8>>,
    todo: Seq<Seq<u8>>,
    hops: nat,
    more: nat,
    disk: spec_fn(Seq<u8>) -> Spot,
)
    requires
        landing(at, todo, hops, disk) is Some,
    ensures
        landing(at, todo, hops, disk) matches Some((end, left)) ==> landing(
            at,
            todo,
            hops + more,
            disk,
        ) == Some((end, left + more)),
    decreases hops, todo.len(),
{
    if todo.len() == 0 {
    } else if is_move(todo[0]) {
        landing_with_more(moved(at, todo[0]), todo.skip(1), hops, more, disk);
    } else {
        match disk(path::render(at.push(todo[0]))) {
            Spot::Link { target, there } => {
                landing_with_more(
                    at,
                    path::components(target) + todo.skip(1),
                    (hops - 1) as nat,
                    more,
                    disk,
                );
                assert((hops - 1) as nat + more == (hops + more - 1) as nat);
            },
            Spot::Lost => {},
            _ => {
                landing_with_more(at.push(todo[0]), todo.skip(1), hops, more, disk);
            },
        }
    }
}

/// No links are won on a way.
pub proof fn landing_spends(
    at: Seq<Seq<u8>>,
    todo: Seq<Seq<u8>>,
    hops: nat,
    disk: spec_fn(Seq<u8>) -> Spot,
)
    ensures
        landing(at, todo, hops, disk) matches Some((end, left)) ==> left <= hops,
    decreases hops, todo.len(),
{
    if todo.len() == 0 {
    } else if is_move(todo[0]) {
        landing_spends(moved(at, todo[0]), todo.skip(1), hops, disk);
    } else {
        match disk(path::render(at.push(todo[0]))) {
            Spot::Link { target, there } => if hops > 0 {
                landing_spends(
                    at,
                    path::components(target) + todo.skip(1),
                    (hops - 1) as nat,
                    disk,
                );
            },
            Spot::Lost => {},
            _ => {
                landing_spends(at.push(todo[0]), todo.skip(1), hops, disk);
            },
        }
    }
}

/// Whether no path of the first components of `at`, one or more, is a link.
pub open spec fn free_of_links(at: Seq<Seq<u8>>, disk: spec_fn(Seq<u8>) -> Spot) -> bool {
    forall|n: int|
        0 < n <= at.len() ==> {
            let spot = disk(path::render(#[trigger] at.take(n)));
            !(spot is Link) && !(spot is Lost)
        }
}

proof fn lemma_free_of_links_push(
    at: Seq<Seq<u8>>,
    next: Seq<u8>,
    disk: spec_fn(Seq<u8>) -> Spot,
)
    requires
        free_of_links(at, disk),
        !(disk(path::render(at.push(next))) is Link),
        !(disk(path::render(at.push(next))) is Lost),
    ensures
        free_of_links(at.push(next), disk),
{
    let now = at.push(next);
    assert forall|n: int| 0 < n <= now.len() implies ({
        let spot = disk(path::render(#[trigger] now.take(n)));
        !(spot is Link) && !(spot is Lost)
    }) by {
        if n == now.len() {
            assert(now.take(n) =~= now);
        } else {
            assert(now.take(n) =~= at.take(n));
        }
    }
}

/// Where a component that moves the way leads is as settled, and as free of links, as `at`.
proof fn lemma_moved(at: Seq<Seq<u8>>, part: Seq<u8>)
    requires
        path::settled(at),
        is_move(part),
    ensures
        path::settled(moved(at, part)),
        moved(at, part) == seq![path::root()] || (moved(at, part).len() <= at.len() && moved(
            at,
            part,
        ) == at.take(moved(at, part).len() as int)),
{
    if part == path::root() {
        let only = seq![path::root()];
        assert(path::root() != path::dotdot()) by {
            assert(path::root().len() != path::dotdot().len());
        }
        assert(path::settled(only));
    } else {
        let n = moved(at, part).len() as int;
        assert(path::dot() != path::dotdot()) by {
            assert(path::dot().len() != path::dotdot().len());
        }
        assert(moved(at, part) =~= at.take(n));
        path::lemma_settled_prefix(at, n);
    }
}

/// Where a path leads holds neither `.` nor `..`, and no link: what stands there, or would stand
/// there, is reached without following any. (The root is no link.)
pub proof fn landing_is_free_of_links(
    at: Seq<Seq<u8>>,
    todo: Seq<Seq<u8>>,
    hops: nat,
    disk: spec_fn(Seq<u8>) -> Spot,
)
    requires
        path::settled(at),
        free_of_links(at, disk),
        loose(todo),
        !(disk(path::root()) is Link),
        !(disk(path::root()) is Lost),
    ensures
        landing(at, todo, hops, disk) matches Some((end, left)) ==> path::settled(end)
            && free_of_links(end, disk),
    decreases hops, todo.len(),
{
    if todo.len() > 0 {
        let rest = todo.skip(1);
        lemma_loose_skip(todo, 1);
        if is_move(todo[0]) {
            let now = moved(at, todo[0]);
            lemma_moved(at, todo[0]);
            assert(free_of_links(now, disk)) by {
                assert forall|n: int| 0 < n <= now.len() implies ({
                    let spot = disk(path::render(#[trigger] now.take(n)));
                    !(spot is Link) && !(spot is Lost)
                }) by {
                    if now == seq![path::root()] {
                        assert(now.take(n) =~= now);
                        path::lemma_render_root();
                    } else {
                        assert(now.take(n) =~= at.take(n));
                    }
                }
            }
            landing_is_free_of_links(now, rest, hops, disk);
        } else {
            assert(path::plain(todo[0]));
            match disk(path::render(at.push(todo[0]))) {
                Spot::Link { target, there } => if hops > 0 {
                    lemma_loose_target(target, rest);
                    landing_is_free_of_links(
                        at,
                        path::components(target) + rest,
                        (hops - 1) as nat,
                        disk,
                    );
                },
                Spot::Lost => {},
                _ => {
                    lemma_free_of_links_push(at, todo[0], disk);
                    path::lemma_settled_push(at, todo[0]);
                    landing_is_free_of_links(at.push(todo[0]), rest, hops, disk);
                },
            }
        }
    }
}

proof fn lemma_loose_target(target: Seq<u8>, rest: Seq<Seq<u8>>)
    requires
        loose(rest),
    ensures
        loose(path::components(target) + rest),
{
    path::lemma_components_shape(target);
    let parts = path::components(target);
    let all = parts + rest;
    assert forall|i: int| 0 <= i < all.len() implies ({
        ||| path::plain(#[trigger] all[i])
        ||| all[i] == path::root()
        ||| all[i] == path::dot()
    }) by {
        if i < parts.len() {
            assert(all[i] == parts[i]);
        } else {
            assert(all[i] == rest[i - parts.len()]);
        }
    }
}

/// A settled path without links leads to itself, and no link is spent on it.
pub proof fn landing_without_links(
    parts: Seq<Seq<u8>>,
    n: int,
    hops: nat,
    disk: spec_fn(Seq<u8>) -> Spot,
)
    requires
        path::settled(parts),
        free_of_links(parts, disk),
        0 <= n <= parts.len(),
    ensures
        landing(parts.take(n), parts.skip(n), hops, disk) == Some((parts, hops)),
    decreases parts.len() - n,
{
    let (at, todo) = (parts.take(n), parts.skip(n));
    if n == parts.len() {
        assert(at =~= parts);
    } else {
        assert(todo[0] == parts[n]);
        assert(todo.skip(1) =~= parts.skip(n + 1));
        assert(parts.take(n + 1) =~= at.push(parts[n]));
        landing_without_links(parts, n + 1, hops, disk);
        if is_move(parts[n]) {
            assert(parts[n] != path::dotdot());
            assert(parts[n] != path::dot());
            assert(parts[n] == path::root());
            path::lemma_root_not_plain();
            assert(n == 0);
            assert(parts.take(1) =~= seq![path::root()]);
        } else {
            let spot = disk(path::render(parts.take(n + 1)));
            assert(!(spot is Link) && !(spot is Lost));
        }
    }
}

/// A way that is being followed: where it is, the components before it, of which the first `from`
/// are taken, and how many links may still be followed. The next component is a name.
#[derive(Debug)]
pub struct Trail {
    at: Vec<Vec<u8>>,
    todo: Vec<Vec<u8>>,
    from: usize,
    hops: usize,
}

/// How far a way has come.
#[derive(Debug)]
pub enum Followed {
    /// Look what stands at the next name, and take another step with the answer.
    On(Trail),
    /// It leads to the path of these components.
    To(Vec<Vec<u8>>),
    /// It cannot be followed.
    Lost,
}

impl View for Followed {
    type V = Course;

    open spec fn view(&self) -> Course {
        match *self {
            Followed::On(trail) => Course::On {
                at: trail.at(),
                todo: trail.todo(),
                hops: trail.hops(),
            },
            Followed::To(at) => Course::To(bytes::views(at@)),
            Followed::Lost => Course::Lost,
        }
    }
}

/// Whether a component moves the way by itself.
fn moves(part: &[u8]) -> (r: bool)
    ensures
        r == is_move(part@),
{
    let (slash, dots): ([u8; 1], [u8; 2]) = ([path::SLASH], [path::DOT, path::DOT]);
    let single: [u8; 1] = [path::DOT];
    assert(slash@ =~= path::root());
    assert(single@ =~= path::dot());
    assert(dots@ =~= path::dotdot());
    bytes::same(part, &slash) || bytes::same(part, &single) || bytes::same(part, &dots)
}

/// Takes a component that moves the way.
fn take_move(at: &mut Vec<Vec<u8>>, part: &[u8])
    requires
        is_move(part@),
    ensures
        bytes::views(final(at)@) == moved(bytes::views(old(at)@), part@),
{
    let slash: [u8; 1] = [path::SLASH];
    let single: [u8; 1] = [path::DOT];
    assert(slash@ =~= path::root());
    assert(single@ =~= path::dot());
    let ghost before = bytes::views(at@);
    if bytes::same(part, &slash) {
        let mut only: Vec<Vec<u8>> = Vec::new();
        only.push(vstd::slice::slice_to_vec(part));
        *at = only;
        assert(bytes::views(at@) =~= seq![path::root()]);
    } else if !bytes::same(part, &single) {
        let n = at.len();
        if n > 0 {
            assert(before.last() == at@[n - 1]@);
            if !bytes::same(at[n - 1].as_slice(), &slash) {
                at.pop();
                assert(bytes::views(at@) =~= before.drop_last());
            }
        }
    }
}

/// How far a way has come with the components of `todo` before it, of which the first `from` are
/// taken.
fn go_on(at: Vec<Vec<u8>>, todo: Vec<Vec<u8>>, from: usize, hops: usize) -> (r: Followed)
    requires
        path::settled(bytes::views(at@)),
        loose(bytes::views(todo@)),
        from <= todo@.len(),
    ensures
        r@ == course(bytes::views(at@), bytes::views(todo@).skip(from as int), hops as nat),
        r matches Followed::To(end) ==> path::settled(bytes::views(end@)),
{
    let mut at = at;
    let mut i: usize = from;
    let ghost all = bytes::views(todo@);
    let ghost start = past_moves(bytes::views(at@), all.skip(from as int));
    while i < todo.len() && moves(todo[i].as_slice())
        invariant
            i <= todo@.len(),
            all == bytes::views(todo@),
            path::settled(bytes::views(at@)),
            past_moves(bytes::views(at@), all.skip(i as int)) == start,
        decreases todo@.len() - i,
    {
        let ghost before = bytes::views(at@);
        assert(all.skip(i as int)[0] == todo@[i as int]@);
        assert(all.skip(i as int).skip(1) =~= all.skip(i + 1));
        proof {
            lemma_moved(before, todo@[i as int]@);
        }
        take_move(&mut at, todo[i].as_slice());
        i += 1;
    }
    if i == todo.len() {
        assert(all.skip(i as int) =~= Seq::empty());
        Followed::To(at)
    } else {
        assert(all.skip(i as int)[0] == todo@[i as int]@);
        assert(all[i as int] == todo@[i as int]@);
        Followed::On(Trail { at, todo, from: i, hops })
    }
}

/// The start of the way that a settled path goes.
pub(crate) fn follow(parts: Vec<Vec<u8>>) -> (r: Followed)
    requires
        path::settled(bytes::views(parts@)),
    ensures
        r@ == course(Seq::empty(), bytes::views(parts@), MAX_LINKS as nat),
        r matches Followed::To(end) ==> path::settled(bytes::views(end@)),
{
    let at: Vec<Vec<u8>> = Vec::new();
    assert(bytes::views(at@) =~= Seq::empty());
    assert(bytes::views(parts@).skip(0) =~= bytes::views(parts@));
    go_on(at, parts, 0, MAX_LINKS)
}

impl Trail {
    pub closed spec fn at(&self) -> Seq<Seq<u8>> {
        bytes::views(self.at@)
    }

    pub closed spec fn todo(&self) -> Seq<Seq<u8>> {
        bytes::views(self.todo@).skip(self.from as int)
    }

    pub closed spec fn hops(&self) -> nat {
        self.hops as nat
    }

    #[verifier::type_invariant]
    spec fn wf(&self) -> bool {
        &&& path::settled(self.at())
        &&& loose(bytes::views(self.todo@))
        &&& self.from < self.todo@.len()
        &&& !is_move(self.todo@[self.from as int]@)
    }

    /// The path to look at.
    pub fn candidate(&self) -> (r: Vec<u8>)
        ensures
            r@ == path::render(self.at().push(self.todo()[0])),
            self.todo().len() > 0,
            !is_move(self.todo()[0]),
    {
        proof {
            use_type_invariant(self);
        }
        let none: [u8; 0] = [];
        assert(none@ =~= Seq::empty());
        let base = path::pushed_all(&none, &self.at, 0, self.at.len());
        assert(self.at().subrange(0, self.at@.len() as int) =~= self.at());
        assert(self.todo()[0] == self.todo@[self.from as int]@);
        assert(self.at().push(self.todo()[0]).drop_last() =~= self.at());
        path::pushed(base.as_slice(), self.todo[self.from].as_slice())
    }

    /// How far the way has come, knowing what stands at the path to look at.
    pub fn step(self, entry: &Entry) -> (r: Followed)
        ensures
            r@ == next_course(self.at(), self.todo(), self.hops(), entry@),
            self.todo().len() > 0,
            !is_move(self.todo()[0]),
            r matches Followed::To(end) ==> path::settled(bytes::views(end@)),
    {
        proof {
            use_type_invariant(&self);
        }
        let ghost (at0, todo0) = (self.at(), self.todo());
        let ghost all = bytes::views(self.todo@);
        let count = self.todo.len();
        assert(self.from < count);
        assert(todo0[0] == self.todo@[self.from as int]@);
        assert(all[self.from as int] == self.todo@[self.from as int]@);
        assert(todo0.skip(1) =~= all.skip(self.from + 1));
        match entry {
            Entry::Lost => Followed::Lost,
            Entry::Link { target, there: _ } => {
                if self.hops == 0 {
                    return Followed::Lost;
                }
                let mut taken = path::components_of(target.as_slice());
                let ghost parts = path::components(target@);
                let mut i: usize = self.from + 1;
                assert(bytes::views(taken@) =~= parts + all.subrange(i as int, i as int));
                while i < count
                    invariant
                        self.from < i <= count,
                        count == self.todo@.len(),
                        all == bytes::views(self.todo@),
                        bytes::views(taken@) == parts + all.subrange(self.from + 1, i as int),
                    decreases self.todo@.len() - i,
                {
                    let ghost before = bytes::views(taken@);
                    let one = vstd::slice::slice_to_vec(self.todo[i].as_slice());
                    taken.push(one);
                    assert(all[i as int] == one@);
                    assert(bytes::views(taken@) =~= before.push(one@));
                    assert(all.subrange(self.from + 1, i + 1) =~= all.subrange(
                        self.from + 1,
                        i as int,
                    ).push(one@));
                    assert(before.push(one@) =~= parts + all.subrange(self.from + 1, i + 1));
                    i += 1;
                }
                assert(all.subrange(self.from + 1, i as int) =~= todo0.skip(1));
                assert(bytes::views(taken@).skip(0) =~= parts + todo0.skip(1));
                proof {
                    lemma_loose_skip(all, self.from + 1);
                    lemma_loose_target(target@, todo0.skip(1));
                }
                go_on(self.at, taken, 0, self.hops - 1)
            },
            _ => {
                let mut at = self.at;
                let name = vstd::slice::slice_to_vec(self.todo[self.from].as_slice());
                proof {
                    path::lemma_settled_push(at0, name@);
                }
                at.push(name);
                assert(bytes::views(at@) =~= at0.push(name@));
                go_on(at, self.todo, self.from + 1, self.hops)
            },
        }
    }
}

proof fn lemma_loose_skip(todo: Seq<Seq<u8>>, n: int)
    requires
        loose(todo),
        0 <= n <= todo.len(),
    ensures
        loose(todo.skip(n)),
{
    let rest = todo.skip(n);
    assert forall|i: int| 0 <= i < rest.len() implies ({
        ||| path::plain(#[trigger] rest[i])
        ||| rest[i] == path::root()
        ||| rest[i] == path::dot()
    }) by {
        assert(rest[i] == todo[i + n]);
    }
}

} // verus!
