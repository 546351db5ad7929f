//! Laws of paths, and of the links that are followed along them.

use vstd::prelude::*;

use crate::follow;
use crate::path;
use crate::text;

verus! {

/// Whether these bytes can be the name of a file: not empty, not `.`, and without a slash.
pub open spec fn is_name(name: Seq<u8>) -> bool {
    name.len() > 0 && name != seq![46u8] && !name.contains(47u8)
}

/// The components of a path are read from its end: a name behind a slash is one more, a slash or
/// `/.` at the end changes nothing, a name alone is the one, `/` alone is the root, and an empty
/// path has none.
pub proof fn components_are_read_from_the_end(p: Seq<u8>, name: Seq<u8>)
    requires
        is_name(name),
    ensures
        path::components(Seq::empty()) == Seq::<Seq<u8>>::empty(),
        path::components(seq![47u8]) == seq![seq![47u8]],
        path::components(seq![46u8]) == seq![seq![46u8]],
        path::components(name) == seq![name],
        path::components(seq![47u8] + name) == seq![seq![47u8], name],
        p.len() > 0 ==> path::components(p.push(47u8)) == path::components(p),
        p.len() > 0 ==> path::components(p.push(47u8).push(46u8)) == path::components(p),
        p.len() > 0 ==> path::components(p.push(47u8) + name) == path::components(p).push(name),
{
    let none = Seq::<u8>::empty();
    let slash = seq![47u8];
    let point = seq![46u8];
    path::lemma_components_of_empty();
    path::lemma_components_of_root();
    assert(path::root() =~= slash);
    assert(path::dot() =~= point);
    path::components_of_push(none, name);
    path::lemma_plain_not_rooted(name);
    assert(path::push(none, name) =~= name);
    assert(path::components(none).push(name) =~= seq![name]);
    path::components_of_push(slash, name);
    assert(path::push(slash, name) =~= slash + name);
    assert(path::components(slash).push(name) =~= seq![slash, name]);
    lemma_components_of_point();
    if p.len() > 0 {
        lemma_end_piece(p, none);
        assert(p.push(47u8) + none =~= p.push(47u8));
        lemma_end_piece(p, point);
        assert(p.push(47u8) + point =~= p.push(47u8).push(46u8));
        let based = p.push(47u8);
        path::components_of_push(based, name);
        assert(path::push(based, name) =~= based + name);
    }
}

proof fn lemma_components_of_point()
    ensures
        path::components(seq![46u8]) == seq![seq![46u8]],
{
    let point = seq![46u8];
    assert(path::dot() =~= point);
    path::lemma_pieces_single(point, 47u8);
    reveal_with_fuel(Seq::filter, 3);
    assert(seq![point].drop_last() =~= Seq::empty());
    assert(path::body(point) =~= Seq::empty());
    assert(seq![point] + path::body(point) =~= seq![point]);
}

/// A piece that names nothing behind a slash at the end changes nothing.
proof fn lemma_end_piece(p: Seq<u8>, piece: Seq<u8>)
    requires
        p.len() > 0,
        piece == Seq::<u8>::empty() || piece == seq![46u8],
    ensures
        path::components(p.push(47u8) + piece) == path::components(p),
{
    let whole = p.push(47u8) + piece;
    assert(path::dot() =~= seq![46u8]);
    path::lemma_pieces_single(piece, 47u8);
    path::lemma_pieces_concat(p, piece, 47u8);
    path::lemma_filter_add(text::pieces(p, 47u8), seq![piece]);
    reveal_with_fuel(Seq::filter, 3);
    assert(seq![piece].drop_last() =~= Seq::empty());
    let pred = |piece: Seq<u8>| path::names_component(piece);
    assert(seq![piece].filter(pred) =~= Seq::empty());
    assert(path::body(whole) =~= path::body(p));
    path::lemma_pieces_without(p, 47u8);
    assert(text::pieces(whole, 47u8)[0] == text::pieces(p, 47u8)[0]);
    assert(whole[0] == p[0]);
}

/// A path added to another stands behind it, with one slash between them where there is none; a
/// rooted path stands alone.
pub proof fn pushing_joins_with_a_slash(base: Seq<u8>, name: Seq<u8>)
    ensures
        name.len() > 0 && name[0] == 47u8 ==> path::push(base, name) == name,
        name.len() == 0 || name[0] != 47u8 ==> {
            &&& path::push(Seq::empty(), name) == name
            &&& path::push(base.push(47u8), name) == base.push(47u8) + name
            &&& base.len() > 0 && base.last() != 47u8 ==> path::push(base, name) == base.push(47u8)
                + name
        },
{
    assert(base + path::root() =~= base.push(47u8));
    assert(Seq::<u8>::empty() + name =~= name);
}

/// Folding goes component by component: a name is added, `.` changes nothing, and `..` takes away
/// the name before it, but never the root.
pub proof fn folding_goes_by_components(parts: Seq<Seq<u8>>, name: Seq<u8>)
    requires
        name != seq![46u8],
        name != seq![46u8, 46u8],
    ensures
        path::folded(Seq::empty()) == Seq::<Seq<u8>>::empty(),
        path::folded(parts.push(name)) == path::folded(parts).push(name),
        path::folded(parts.push(seq![46u8])) == path::folded(parts),
        name != seq![47u8] ==> path::folded(parts.push(name).push(seq![46u8, 46u8]))
            == path::folded(parts),
        path::folded(parts.push(seq![47u8]).push(seq![46u8, 46u8])) == path::folded(
            parts.push(seq![47u8]),
        ),
        path::folded(seq![seq![46u8, 46u8]]) == Seq::<Seq<u8>>::empty(),
        ({
            let sofar = path::folded(parts);
            path::folded(parts.push(seq![46u8, 46u8])) == (if sofar.len() > 0 && sofar.last()
                != seq![47u8] {
                sofar.drop_last()
            } else {
                sofar
            })
        }),
{
    let (point, up, slash) = (seq![46u8], seq![46u8, 46u8], seq![47u8]);
    assert(path::dot() =~= point);
    assert(path::dotdot() =~= up);
    assert(path::root() =~= slash);
    assert(up.len() != point.len() && slash[0] != point[0] && slash.len() != up.len());
    assert(parts.push(name).drop_last() =~= parts);
    assert(parts.push(point).drop_last() =~= parts);
    assert(parts.push(slash).drop_last() =~= parts);
    assert(parts.push(name).push(up).drop_last() =~= parts.push(name));
    assert(parts.push(slash).push(up).drop_last() =~= parts.push(slash));
    assert(path::folded(parts).push(name).drop_last() =~= path::folded(parts));
    assert(seq![up].drop_last() =~= Seq::empty());
    assert(parts.push(up).drop_last() =~= parts);
}

/// A path lies under a directory exactly when its components begin with those of the directory.
pub proof fn under_is_a_prefix(p: Seq<u8>, dir: Seq<u8>)
    ensures
        path::under(p, dir) <==> path::components(dir).is_prefix_of(path::components(p)),
{
    let (c, d) = (path::components(p), path::components(dir));
    if d.len() <= c.len() {
        assert(c.subrange(0, d.len() as int) =~= c.take(d.len() as int));
    }
}

/// What stands in a directory, at any depth, lies under it, and so does the directory.
pub proof fn what_stands_in_a_directory_is_under_it(dir: Seq<u8>, names: Seq<Seq<u8>>)
    requires
        forall|i: int| 0 <= i < names.len() ==> is_name(#[trigger] names[i]),
    ensures
        path::under(path::push_all(dir, names), dir),
        path::under(dir, dir),
{
    path::components_of_push_all(dir, names);
    let (c, d) = (path::components(path::push_all(dir, names)), path::components(dir));
    assert(c.take(d.len() as int) =~= d);
    assert(d.take(d.len() as int) =~= d);
}

/// Adding names one after another is adding the last to what the others give.
pub proof fn names_are_added_in_order(base: Seq<u8>, names: Seq<Seq<u8>>, name: Seq<u8>)
    ensures
        path::push_all(base, Seq::empty()) == base,
        path::push_all(base, names.push(name)) == path::push(path::push_all(base, names), name),
        path::render(names) == path::push_all(Seq::empty(), names),
{
    assert(names.push(name).drop_last() =~= names);
}

/// The name of a file is its last component, whatever slashes stand behind it; `..`, the root and
/// the empty path have none.
pub proof fn file_names_are_last_components(dir: Seq<u8>, name: Seq<u8>)
    requires
        is_name(name),
    ensures
        name != seq![46u8, 46u8] ==> path::file_name(path::push(dir, name)) == Some(name),
        path::file_name(path::push(dir, seq![46u8, 46u8])) is None,
        path::file_name(path::push(dir, name).push(47u8)) == path::file_name(
            path::push(dir, name),
        ),
        path::file_name(Seq::empty()) is None,
        path::file_name(seq![47u8]) is None,
{
    let up = seq![46u8, 46u8];
    assert(path::dotdot() =~= up);
    assert(path::plain(up)) by {
        assert(up.len() != path::dot().len());
    }
    path::lemma_push_tail(dir, name);
    path::lemma_push_tail(dir, up);
    if name != up {
        path::file_name_of_push(dir, name);
    }
    let whole = path::push(dir, name);
    assert(whole.push(47u8).drop_last() =~= whole);
    reveal_with_fuel(path::trim_tail, 2);
    reveal_with_fuel(path::after_last, 2);
    assert(path::last_component(Seq::empty()) =~= Seq::empty());
    let slash = seq![47u8];
    assert(path::trim_tail(slash) == slash);
    assert(path::last_component(slash) =~= Seq::empty());
}

/// The extension of a file is what stands behind the last dot of its name, unless the name begins
/// with that dot.
pub proof fn extensions_stand_behind_the_last_dot(dir: Seq<u8>, stem: Seq<u8>, ext: Seq<u8>)
    requires
        stem.len() > 0,
        stem != seq![46u8],
        !stem.contains(47u8),
        !ext.contains(47u8),
        !ext.contains(46u8),
    ensures
        path::extension(path::push(dir, stem.push(46u8) + ext)) == Some(ext),
        !stem.contains(46u8) ==> path::extension(path::push(dir, stem)) is None,
        ext.len() > 0 ==> path::extension(path::push(dir, seq![46u8] + ext)) is None,
{
    let name = stem.push(46u8) + ext;
    assert(is_name(name)) by {
        assert forall|i: int| 0 <= i < name.len() implies name[i] != 47u8 by {
            if i < stem.len() {
                assert(stem.contains(stem[i]));
            } else if i > stem.len() {
                assert(ext.contains(ext[i - stem.len() - 1]));
            }
        }
    }
    assert(path::dot() =~= seq![46u8]);
    assert(path::dotdot() =~= seq![46u8, 46u8]);
    assert(name != path::dotdot()) by {
        if name == path::dotdot() {
            assert(stem.len() == 1);
            assert(stem[0] == name[0]);
            assert(stem =~= seq![46u8]);
        }
    }
    path::file_name_of_push(dir, name);
    let n = stem.len() as int + 1;
    assert forall|i: int| n <= i < name.len() implies name[i] != 46u8 by {
        assert(ext.contains(ext[i - n]));
    }
    path::lemma_after_last_is(name, 46u8, n);
    assert(name.skip(n) =~= ext);
    if !stem.contains(46u8) {
        assert(stem != path::dotdot()) by {
            if stem == path::dotdot() {
                assert(stem[0] == 46u8);
            }
        }
        path::file_name_of_push(dir, stem);
        path::lemma_after_last_is(stem, 46u8, 0);
    }
    if ext.len() > 0 {
        let hidden = seq![46u8] + ext;
        assert(is_name(hidden)) by {
            assert forall|i: int| 0 <= i < hidden.len() implies hidden[i] != 47u8 by {
                if i > 0 {
                    assert(ext.contains(ext[i - 1]));
                }
            }
            assert(hidden.len() != 1);
        }
        assert forall|i: int| 1 <= i < hidden.len() implies hidden[i] != 46u8 by {
            assert(ext.contains(ext[i - 1]));
        }
        assert(hidden[1] != 46u8);
        path::file_name_of_push(dir, hidden);
        path::lemma_after_last_is(hidden, 46u8, 1);
    }
}

/// Another extension takes the place of the old one, or stands behind the name where there was
/// none.
pub proof fn extensions_are_replaced(dir: Seq<u8>, stem: Seq<u8>, ext: Seq<u8>, new: Seq<u8>)
    requires
        stem.len() > 0,
        stem != seq![46u8],
        !stem.contains(47u8),
        !ext.contains(47u8),
        !ext.contains(46u8),
        new.len() > 0,
    ensures
        path::with_extension(path::push(dir, stem.push(46u8) + ext), new) == path::push(dir, stem)
            + seq![46u8] + new,
        !stem.contains(46u8) ==> path::with_extension(path::push(dir, stem), new) == path::push(
            dir,
            stem,
        ) + seq![46u8] + new,
{
    extensions_stand_behind_the_last_dot(dir, stem, ext);
    let name = stem.push(46u8) + ext;
    assert(path::dot() =~= seq![46u8]);
    assert(is_name(name)) by {
        assert forall|i: int| 0 <= i < name.len() implies name[i] != 47u8 by {
            if i < stem.len() {
                assert(stem.contains(stem[i]));
            } else if i > stem.len() {
                assert(ext.contains(ext[i - stem.len() - 1]));
            }
        }
    }
    path::lemma_push_tail(dir, name);
    path::lemma_push_tail(dir, stem);
    path::lemma_plain_not_rooted(name);
    path::lemma_plain_not_rooted(stem);
    let whole = path::push(dir, name);
    assert(path::file_name(whole) is Some) by {
        if path::file_name(whole) is None {
            assert(path::extension(whole) is None);
        }
    }
    assert(whole.take(whole.len() - ext.len() - 1) =~= path::push(dir, stem));
    if !stem.contains(46u8) {
        assert(stem != path::dotdot()) by {
            if stem == path::dotdot() {
                assert(stem[0] == 46u8);
            }
        }
        path::file_name_of_push(dir, stem);
    }
}

/// The parent of a path is the path without its last component; the root and the empty path have
/// none.
pub proof fn parents_lose_the_last_component(dir: Seq<u8>, name: Seq<u8>)
    requires
        is_name(name),
        name != seq![46u8, 46u8],
    ensures
        path::parent(path::push(dir, name)) matches Some(up) && path::components(up)
            == path::components(dir),
        path::parent(Seq::empty()) is None,
        path::parent(seq![47u8]) is None,
{
    assert(path::dotdot() =~= seq![46u8, 46u8]);
    path::lemma_push_tail(dir, name);
    path::lemma_plain_not_rooted(name);
    let whole = path::push(dir, name);
    let front = whole.take(whole.len() - name.len());
    lemma_trimmed_components(front);
    if dir.len() > 0 && dir.last() != 47u8 {
        assert(front =~= dir.push(47u8));
        lemma_end_piece(dir, Seq::empty());
        assert(dir.push(47u8) + Seq::<u8>::empty() =~= dir.push(47u8));
    } else {
        assert(front =~= dir);
    }
    reveal_with_fuel(path::trim_tail, 2);
    reveal_with_fuel(path::after_last, 2);
    assert(path::last_component(Seq::empty()) =~= Seq::empty());
    let slash = seq![47u8];
    assert(path::trim_tail(slash) == slash);
    assert(path::last_component(slash) =~= Seq::empty());
}

/// Trimming what stands behind the last component keeps the components.
proof fn lemma_trimmed_components(p: Seq<u8>)
    ensures
        path::components(path::trim_tail(p)) == path::components(p),
    decreases p.len(),
{
    if p.len() > 1 && p.last() == 47u8 {
        let front = p.drop_last();
        lemma_trimmed_components(front);
        lemma_end_piece(front, Seq::empty());
        assert(front.push(47u8) + Seq::<u8>::empty() =~= p);
    } else if p.len() > 1 && p.last() == 46u8 && p[p.len() - 2] == 47u8 {
        let mid = p.drop_last();
        lemma_trimmed_components(mid);
        if mid.len() > 1 {
            let front = mid.drop_last();
            lemma_end_piece(front, Seq::empty());
            lemma_end_piece(front, seq![46u8]);
            assert(front.push(47u8) + Seq::<u8>::empty() =~= mid);
            assert(front.push(47u8) + seq![46u8] =~= p);
        } else {
            lemma_components_of_root_point(p);
        }
    }
}

proof fn lemma_components_of_root_point(p: Seq<u8>)
    requires
        p.len() == 2,
        p[0] == 47u8,
        p[1] == 46u8,
    ensures
        path::components(p) == path::components(p.drop_last()),
{
    let point = seq![46u8];
    let none = Seq::<u8>::empty();
    assert(path::dot() =~= point);
    assert(none.push(47u8) + point =~= p);
    assert(none.push(47u8) + none =~= p.drop_last());
    path::lemma_pieces_single(none, 47u8);
    path::lemma_pieces_single(point, 47u8);
    path::lemma_pieces_concat(none, point, 47u8);
    path::lemma_pieces_concat(none, none, 47u8);
    reveal_with_fuel(Seq::filter, 3);
    let (a, b) = (seq![none] + seq![point], seq![none] + seq![none]);
    assert(a.drop_last() =~= seq![none]);
    assert(b.drop_last() =~= seq![none]);
    assert(seq![none].drop_last() =~= Seq::empty());
    assert(path::body(p) =~= Seq::empty());
    assert(path::body(p.drop_last()) =~= Seq::empty());
}

/// A settled path has names alone behind its root, and neither `.` nor `..`.
pub proof fn settled_is_names_alone(parts: Seq<Seq<u8>>, i: int)
    requires
        path::settled(parts),
        0 <= i < parts.len(),
    ensures
        parts[i] != seq![46u8] && parts[i] != seq![46u8, 46u8],
        is_name(parts[i]) || (i == 0 && parts[i] == seq![47u8]),
{
    assert(path::dot() =~= seq![46u8]);
    assert(path::dotdot() =~= seq![46u8, 46u8]);
    assert(path::root() =~= seq![47u8]);
    let part = parts[i];
    if part == seq![46u8] {
        assert(part[0] != path::root()[0]);
    }
}

/// Links are followed component by component: the root starts again, `.` changes nothing, `..` goes
/// up from where the way is, the target of a link stands in the link's place and costs one link,
/// and anything else is passed. A link that cannot be read, or one too many, ends the way.
pub proof fn links_are_followed_in_place(
    at: Seq<Seq<u8>>,
    part: Seq<u8>,
    rest: Seq<Seq<u8>>,
    hops: nat,
    disk: spec_fn(Seq<u8>) -> follow::Spot,
)
    ensures
        follow::landing(at, Seq::empty(), hops, disk) == Some((at, hops)),
        ({
            let todo = seq![part] + rest;
            let now = follow::landing(at, todo, hops, disk);
            if part == seq![47u8] {
                now == follow::landing(seq![part], rest, hops, disk)
            } else if part == seq![46u8] {
                now == follow::landing(at, rest, hops, disk)
            } else if part == seq![46u8, 46u8] {
                now == follow::landing(
                    if at.len() > 0 && at.last() != seq![47u8] {
                        at.drop_last()
                    } else {
                        at
                    },
                    rest,
                    hops,
                    disk,
                )
            } else {
                match disk(path::render(at.push(part))) {
                    follow::Spot::Link { target, there } => if hops == 0 {
                        now is None
                    } else {
                        now == follow::landing(
                            at,
                            path::components(target) + rest,
                            (hops - 1) as nat,
                            disk,
                        )
                    },
                    follow::Spot::Lost => now is None,
                    _ => now == follow::landing(at.push(part), rest, hops, disk),
                }
            }
        }),
{
    assert(path::dot() =~= seq![46u8]);
    assert(path::dotdot() =~= seq![46u8, 46u8]);
    assert(path::root() =~= seq![47u8]);
    assert(path::dot()[0] != path::root()[0]);
    assert(path::dot().len() != path::dotdot().len());
    assert(path::root().len() != path::dotdot().len());
    let todo = seq![part] + rest;
    assert(todo.skip(1) =~= rest);
}

/// What exists is what is no link, or a link that leads to something; a link that leads to nothing,
/// or cannot be read, leads nowhere. Nothing is neither.
pub proof fn what_stands_exists_or_leads_nowhere(target: Seq<u8>)
    ensures
        follow::is_there(follow::Spot::There),
        follow::is_there(follow::Spot::Link { target, there: true }),
        !follow::is_there(follow::Spot::Link { target, there: false }),
        !follow::is_there(follow::Spot::Lost),
        !follow::is_there(follow::Spot::Absent),
        follow::leads_nowhere(follow::Spot::Link { target, there: false }),
        follow::leads_nowhere(follow::Spot::Lost),
        !follow::leads_nowhere(follow::Spot::Link { target, there: true }),
        !follow::leads_nowhere(follow::Spot::There),
        !follow::leads_nowhere(follow::Spot::Absent),
{
}

/// Following a path starts from nothing, with forty links to follow, and gives where it lands.
pub proof fn a_path_leads_where_it_lands(
    parts: Seq<Seq<u8>>,
    disk: spec_fn(Seq<u8>) -> follow::Spot,
)
    ensures
        match follow::landing(Seq::empty(), parts, 40, disk) {
            Some((at, left)) => follow::led_to(parts, disk) == Some(at),
            None => follow::led_to(parts, disk) is None,
        },
{
}

/// A normal path is its folded components, one behind the other with a slash between, and nothing
/// else.
pub proof fn normal_paths_are_their_components(p: Seq<u8>)
    ensures
        path::normal(p) == path::push_all(Seq::empty(), path::folded(path::components(p))),
        path::components(path::normal(p)) == path::folded(path::components(p)),
{
    path::normal_is_settled(p);
}

/// What is said to stand at a path is taken as it is said.
pub proof fn entries_mean_what_they_say(target: Vec<u8>, there: bool)
    ensures
        follow::Entry::Absent@ == follow::Spot::Absent,
        follow::Entry::There@ == follow::Spot::There,
        follow::Entry::Lost@ == follow::Spot::Lost,
        (follow::Entry::Link { target, there })@ == (follow::Spot::Link { target: target@, there }),
{
}

} // verus!
