//! Unix paths as byte strings, by their text alone: nothing here looks at a file system.

use vstd::prelude::*;

use crate::bytes;
use crate::text;

verus! {

pub const SLASH: u8 = 47;

pub const DOT: u8 = 46;

/// The component that a rooted path begins with.
pub open spec fn root() -> Seq<u8> {
    seq![SLASH]
}

/// The component `.`.
pub open spec fn dot() -> Seq<u8> {
    seq![DOT]
}

/// The component `..`.
pub open spec fn dotdot() -> Seq<u8> {
    seq![DOT, DOT]
}

pub open spec fn rooted(p: Seq<u8>) -> bool {
    p.len() > 0 && p[0] == SLASH
}

/// Whether a piece between slashes names a component. Empty pieces and `.` do not.
pub open spec fn names_component(piece: Seq<u8>) -> bool {
    piece.len() > 0 && piece != dot()
}

/// The pieces of `p` between slashes that name a component.
pub open spec fn body(p: Seq<u8>) -> Seq<Seq<u8>> {
    text::pieces(p, SLASH).filter(|piece: Seq<u8>| names_component(piece))
}

/// The components of a path: the root first where the path is rooted, or `.` where the path begins
/// with it; then the names, `..` among them.
pub open spec fn components(p: Seq<u8>) -> Seq<Seq<u8>> {
    if rooted(p) {
        seq![root()] + body(p)
    } else if text::pieces(p, SLASH)[0] == dot() {
        seq![dot()] + body(p)
    } else {
        body(p)
    }
}

/// `name` added to the end of `base`, behind a slash where `base` needs one; `name` alone when it
/// is rooted.
pub open spec fn push(base: Seq<u8>, name: Seq<u8>) -> Seq<u8> {
    if rooted(name) {
        name
    } else if base.len() > 0 && base.last() != SLASH {
        base + root() + name
    } else {
        base + name
    }
}

/// All of `names` added to the end of `base`, one after another.
pub open spec fn push_all(base: Seq<u8>, names: Seq<Seq<u8>>) -> Seq<u8>
    decreases names.len(),
{
    if names.len() == 0 {
        base
    } else {
        push(push_all(base, names.drop_last()), names.last())
    }
}

/// The path with these components.
pub open spec fn render(parts: Seq<Seq<u8>>) -> Seq<u8> {
    push_all(Seq::empty(), parts)
}

/// The components so far with one more: `.` changes nothing, and `..` takes the last name away,
/// never the root.
pub open spec fn fold_one(parts: Seq<Seq<u8>>, next: Seq<u8>) -> Seq<Seq<u8>> {
    if next == dot() {
        parts
    } else if next == dotdot() {
        if parts.len() > 0 && parts.last() != root() {
            parts.drop_last()
        } else {
            parts
        }
    } else {
        parts.push(next)
    }
}

/// The components with `.` and `..` folded away.
pub open spec fn folded(parts: Seq<Seq<u8>>) -> Seq<Seq<u8>>
    decreases parts.len(),
{
    if parts.len() == 0 {
        parts
    } else {
        fold_one(folded(parts.drop_last()), parts.last())
    }
}

/// `p` with `.` and `..` folded away.
pub open spec fn normal(p: Seq<u8>) -> Seq<u8> {
    render(folded(components(p)))
}

/// Whether the components of `p` begin with those of `base`.
pub open spec fn under(p: Seq<u8>, base: Seq<u8>) -> bool {
    let (b, c) = (components(base), components(p));
    b.len() <= c.len() && c.take(b.len() as int) == b
}

/// `p` without the slashes and `/.` behind its last component.
pub open spec fn trim_tail(p: Seq<u8>) -> Seq<u8>
    decreases p.len(),
{
    if p.len() > 1 && (p.last() == SLASH || (p.last() == DOT && p[p.len() - 2] == SLASH)) {
        trim_tail(p.drop_last())
    } else {
        p
    }
}

/// The place behind the last `x` of `s`; 0 when there is none.
pub open spec fn after_last(s: Seq<u8>, x: u8) -> nat
    decreases s.len(),
{
    if s.len() == 0 || s.last() == x {
        s.len()
    } else {
        after_last(s.drop_last(), x)
    }
}

/// The last component of `p`, empty when `p` is empty or the root.
pub open spec fn last_component(p: Seq<u8>) -> Seq<u8> {
    trim_tail(p).skip(after_last(trim_tail(p), SLASH) as int)
}

/// `p` without its last component.
pub open spec fn parent(p: Seq<u8>) -> Option<Seq<u8>> {
    if last_component(p).len() == 0 {
        None
    } else {
        Some(trim_tail(trim_tail(p).take(after_last(trim_tail(p), SLASH) as int)))
    }
}

/// The last component of `p`, when it is a name.
pub open spec fn file_name(p: Seq<u8>) -> Option<Seq<u8>> {
    let name = last_component(p);
    if name.len() == 0 || name == dot() || name == dotdot() {
        None
    } else {
        Some(name)
    }
}

/// What stands behind the last dot of `name`, when that dot is not its first byte.
pub open spec fn extension_of(name: Seq<u8>) -> Option<Seq<u8>> {
    if after_last(name, DOT) >= 2 {
        Some(name.skip(after_last(name, DOT) as int))
    } else {
        None
    }
}

/// What stands behind the last dot of the file name of `p`, when that dot is not its first byte.
pub open spec fn extension(p: Seq<u8>) -> Option<Seq<u8>> {
    match file_name(p) {
        Some(name) => extension_of(name),
        None => None,
    }
}

/// `p` with `ext` for the extension of its file name, or behind it where it has none; `p` itself
/// when it has no file name.
pub open spec fn with_extension(p: Seq<u8>, ext: Seq<u8>) -> Seq<u8> {
    if file_name(p) is None {
        p
    } else {
        let whole = trim_tail(p);
        let stem = match extension(p) {
            Some(old) => whole.take(whole.len() - old.len() - 1),
            None => whole,
        };
        if ext.len() == 0 {
            stem
        } else {
            stem + dot() + ext
        }
    }
}

/// A name as it stands between slashes: not empty, without a slash, and not `.`.
pub open spec fn plain(name: Seq<u8>) -> bool {
    &&& names_component(name)
    &&& !name.contains(SLASH)
}

/// The components that a path can have, apart from a leading `.`.
pub open spec fn proper(parts: Seq<Seq<u8>>) -> bool {
    forall|i: int|
        0 <= i < parts.len() ==> plain(#[trigger] parts[i]) || (i == 0 && parts[i] == root())
}

/// A name does not begin with a slash.
pub proof fn lemma_plain_not_rooted(name: Seq<u8>)
    requires
        plain(name),
    ensures
        !rooted(name),
{
    if rooted(name) {
        assert(name.contains(name[0]));
    }
}

/// The pieces of two parts with a separator between them are those of the parts.
pub proof fn lemma_pieces_concat(a: Seq<u8>, b: Seq<u8>, sep: u8)
    ensures
        text::pieces(a.push(sep) + b, sep) == text::pieces(a, sep) + text::pieces(b, sep),
    decreases a.len(),
{
    let whole = a.push(sep) + b;
    let n = text::first_at(a, sep);
    text::lemma_first_at(a, sep);
    text::lemma_first_at_is(whole, sep, n as int);
    assert(whole.take(n as int) =~= a.take(n as int));
    if n >= a.len() {
        assert(a.take(n as int) =~= a);
        assert(whole.skip(n as int + 1) =~= b);
    } else {
        let rest = a.skip(n as int + 1);
        assert(whole.skip(n as int + 1) =~= rest.push(sep) + b);
        lemma_pieces_concat(rest, b, sep);
        assert(seq![a.take(n as int)] + (text::pieces(rest, sep) + text::pieces(b, sep)) =~= (seq![
            a.take(n as int),
        ] + text::pieces(rest, sep)) + text::pieces(b, sep));
    }
}

/// There is always a piece, and no separator stands in one.
pub proof fn lemma_pieces_without(p: Seq<u8>, sep: u8)
    ensures
        text::pieces(p, sep).len() > 0,
        forall|i: int|
            0 <= i < text::pieces(p, sep).len() ==> !(#[trigger] text::pieces(p, sep)[i]).contains(
                sep,
            ),
    decreases p.len(),
{
    let n = text::first_at(p, sep);
    text::lemma_first_at(p, sep);
    if n >= p.len() {
    } else {
        lemma_pieces_without(p.skip(n as int + 1), sep);
        let all = text::pieces(p, sep);
        assert forall|i: int| 0 <= i < all.len() implies !(#[trigger] all[i]).contains(sep) by {
            if i > 0 {
                assert(all[i] == text::pieces(p.skip(n as int + 1), sep)[i - 1]);
            }
        }
    }
}

/// Bytes without a separator are one piece.
pub proof fn lemma_pieces_single(p: Seq<u8>, sep: u8)
    requires
        !p.contains(sep),
    ensures
        text::pieces(p, sep) == seq![p],
{
    text::lemma_first_at_is(p, sep, p.len() as int);
}

/// The pieces that name a component are found part by part.
pub proof fn lemma_filter_add(a: Seq<Seq<u8>>, b: Seq<Seq<u8>>)
    ensures
        (a + b).filter(|piece: Seq<u8>| names_component(piece)) == a.filter(
            |piece: Seq<u8>| names_component(piece),
        ) + b.filter(|piece: Seq<u8>| names_component(piece)),
{
    Seq::filter_distributes_over_add(a, b, |piece: Seq<u8>| names_component(piece));
}

/// A plain name added to a path is its last component, and the others stay as they were.
pub proof fn components_of_push(base: Seq<u8>, name: Seq<u8>)
    requires
        plain(name),
    ensures
        components(push(base, name)) == components(base).push(name),
{
    let pred = |piece: Seq<u8>| names_component(piece);
    lemma_pieces_single(name, SLASH);
    lemma_plain_not_rooted(name);
    reveal_with_fuel(Seq::filter, 3);
    let one = seq![name];
    assert(one.drop_last() =~= Seq::empty());
    assert(one.filter(pred) =~= one);
    lemma_pieces_without(base, SLASH);
    if base.len() == 0 {
        assert(base + name =~= name);
        text::lemma_first_at_is(base, SLASH, 0);
        let none = seq![base];
        assert(none.drop_last() =~= Seq::empty());
        assert(body(base) =~= Seq::empty());
        assert(components(push(base, name)) =~= components(base).push(name));
    } else if base.last() == SLASH {
        let front = base.drop_last();
        assert(front.push(SLASH) =~= base);
        lemma_pieces_concat(front, name, SLASH);
        lemma_pieces_concat(front, Seq::empty(), SLASH);
        assert(front.push(SLASH) + Seq::<u8>::empty() =~= base);
        let e = Seq::<u8>::empty();
        lemma_pieces_single(e, SLASH);
        lemma_pieces_without(front, SLASH);
        let fp = text::pieces(front, SLASH);
        lemma_filter_add(fp, seq![name]);
        lemma_filter_add(fp, seq![e]);
        let es = seq![e];
        assert(es.drop_last() =~= Seq::empty());
        assert(es.filter(pred) =~= Seq::empty());
        assert(body(push(base, name)) =~= body(base).push(name));
        assert(components(push(base, name)) =~= components(base).push(name));
    } else {
        assert(base + root() + name =~= base.push(SLASH) + name);
        lemma_pieces_concat(base, name, SLASH);
        lemma_filter_add(text::pieces(base, SLASH), seq![name]);
        assert(body(push(base, name)) =~= body(base).push(name));
        assert(components(push(base, name)) =~= components(base).push(name));
    }
}

/// Plain names added to a path follow its components.
pub proof fn components_of_push_all(base: Seq<u8>, names: Seq<Seq<u8>>)
    requires
        forall|i: int| 0 <= i < names.len() ==> plain(#[trigger] names[i]),
    ensures
        components(push_all(base, names)) == components(base) + names,
    decreases names.len(),
{
    if names.len() == 0 {
        assert(components(base) + names =~= components(base));
    } else {
        assert forall|i: int| 0 <= i < names.drop_last().len() implies plain(
            #[trigger] names.drop_last()[i],
        ) by {
            assert(plain(names[i]));
        }
        components_of_push_all(base, names.drop_last());
        components_of_push(push_all(base, names.drop_last()), names.last());
        assert((components(base) + names.drop_last()).push(names.last()) =~= components(base)
            + names);
    }
}

/// An empty path has no components.
pub proof fn lemma_components_of_empty()
    ensures
        components(Seq::empty()) == Seq::<Seq<u8>>::empty(),
        body(Seq::empty()) == Seq::<Seq<u8>>::empty(),
{
    let none = Seq::<u8>::empty();
    let empties = seq![none];
    lemma_pieces_single(none, SLASH);
    reveal_with_fuel(Seq::filter, 2);
    assert(empties.drop_last() =~= Seq::empty());
    assert(body(none) =~= Seq::empty());
}

/// The root has itself for its component.
pub proof fn lemma_components_of_root()
    ensures
        components(root()) == seq![root()],
{
    let none = Seq::<u8>::empty();
    lemma_components_of_empty();
    lemma_pieces_concat(none, none, SLASH);
    assert(none.push(SLASH) + none =~= root());
    lemma_filter_add(text::pieces(none, SLASH), text::pieces(none, SLASH));
    assert(body(root()) =~= Seq::empty());
    assert(components(root()) =~= seq![root()]);
}

/// A path made of components has those components.
pub proof fn components_of_render(parts: Seq<Seq<u8>>)
    requires
        proper(parts),
    ensures
        components(render(parts)) == parts,
{
    let none = Seq::<u8>::empty();
    lemma_components_of_empty();
    lemma_components_of_root();
    if parts.len() > 0 && parts[0] == root() {
        let names = parts.skip(1);
        assert forall|i: int| 0 <= i < names.len() implies plain(#[trigger] names[i]) by {
            assert(names[i] == parts[i + 1]);
        }
        lemma_push_all_split(none, parts, 1);
        let first = parts.take(1);
        assert(first.drop_last() =~= Seq::empty());
        assert(push_all(none, first.drop_last()) == none);
        assert(push_all(none, first) == root());
        components_of_push_all(root(), names);
        assert(components(root()) + names =~= parts);
    } else {
        assert forall|i: int| 0 <= i < parts.len() implies plain(#[trigger] parts[i]) by {}
        components_of_push_all(none, parts);
        assert(components(none) + parts =~= parts);
    }
}

/// Adding names in two goes is adding them in one.
pub proof fn lemma_push_all_split(base: Seq<u8>, names: Seq<Seq<u8>>, n: int)
    requires
        0 <= n <= names.len(),
    ensures
        push_all(base, names) == push_all(push_all(base, names.take(n)), names.skip(n)),
    decreases names.len(),
{
    if n == names.len() {
        assert(names.take(n) =~= names);
        assert(names.skip(n) =~= Seq::empty());
    } else {
        lemma_push_all_split(base, names.drop_last(), n);
        assert(names.drop_last().take(n) =~= names.take(n));
        assert(names.drop_last().skip(n) =~= names.skip(n).drop_last());
        assert(names.skip(n).last() == names.last());
    }
}

/// Components among which neither `.` nor `..` stands.
pub open spec fn settled(parts: Seq<Seq<u8>>) -> bool {
    &&& proper(parts)
    &&& forall|i: int| 0 <= i < parts.len() ==> #[trigger] parts[i] != dotdot()
}

/// The first components of a settled path are settled.
pub proof fn lemma_settled_prefix(parts: Seq<Seq<u8>>, n: int)
    requires
        settled(parts),
        0 <= n <= parts.len(),
    ensures
        settled(parts.take(n)),
        proper(parts.take(n)),
{
    let front = parts.take(n);
    assert forall|i: int| 0 <= i < front.len() implies (plain(#[trigger] front[i]) || (i == 0
        && front[i] == root())) && front[i] != dotdot() by {
        assert(front[i] == parts[i]);
    }
}

/// A name behind settled components leaves them settled.
pub proof fn lemma_settled_push(parts: Seq<Seq<u8>>, name: Seq<u8>)
    requires
        settled(parts),
        plain(name),
        name != dotdot(),
    ensures
        settled(parts.push(name)),
{
    let now = parts.push(name);
    assert forall|i: int| 0 <= i < now.len() implies (plain(#[trigger] now[i]) || (i == 0 && now[i]
        == root())) && now[i] != dotdot() by {
        if i < parts.len() {
            assert(now[i] == parts[i]);
        }
    }
}

/// The first component of a rooted path is the root.
pub proof fn lemma_rooted_first(p: Seq<u8>)
    requires
        rooted(p),
    ensures
        components(p).len() > 0,
        components(p)[0] == root(),
{
}

/// A path whose first component is the root is rooted.
pub proof fn lemma_rooted_of_first(p: Seq<u8>)
    requires
        components(p).len() > 0,
        components(p)[0] == root(),
    ensures
        rooted(p),
{
    if !rooted(p) {
        lemma_unrooted_components(p);
        assert(components(p)[0] != root());
    }
}

/// The root is no name.
pub proof fn lemma_root_not_plain()
    ensures
        !plain(root()),
{
    assert(root()[0] == SLASH);
    assert(root().contains(SLASH));
}

/// The path of the root alone is the root.
pub proof fn lemma_render_root()
    ensures
        render(seq![root()]) == root(),
{
    let only = seq![root()];
    assert(only.drop_last() =~= Seq::empty());
    assert(push_all(Seq::empty(), only.drop_last()) == Seq::<u8>::empty());
}

/// What components a path can have: names, behind the root or `.` where the path begins with it.
pub proof fn lemma_components_shape(p: Seq<u8>)
    ensures
        forall|i: int|
            #![trigger components(p)[i]]
            0 <= i < components(p).len() ==> {
                ||| plain(components(p)[i])
                ||| i == 0 && (components(p)[i] == root() || components(p)[i] == dot())
            },
{
    let pred = |piece: Seq<u8>| names_component(piece);
    let all = text::pieces(p, SLASH);
    lemma_pieces_without(p, SLASH);
    let kept = body(p);
    assert forall|i: int| 0 <= i < kept.len() implies plain(#[trigger] kept[i]) by {
        broadcast use vstd::seq_lib::group_filter_ensures;

        assert(pred(kept[i]));
        assert(kept.contains(kept[i]));
        all.lemma_filter_contains_rev(pred, kept[i]);
        let k = choose|k: int| 0 <= k < all.len() && all[k] == kept[i];
        assert(!all[k].contains(SLASH));
    }
    assert forall|i: int| 0 <= i < components(p).len() implies ({
        ||| plain(#[trigger] components(p)[i])
        ||| i == 0 && (components(p)[i] == root() || components(p)[i] == dot())
    }) by {
        if components(p).len() == kept.len() {
            assert(components(p)[i] == kept[i]);
        } else if i > 0 {
            assert(components(p)[i] == kept[i - 1]);
        }
    }
}

proof fn lemma_folded_settled(parts: Seq<Seq<u8>>)
    requires
        forall|i: int|
            0 <= i < parts.len() ==> {
                ||| plain(#[trigger] parts[i])
                ||| i == 0 && (parts[i] == root() || parts[i] == dot())
            },
    ensures
        settled(folded(parts)),
        folded(parts).len() <= parts.len(),
    decreases parts.len(),
{
    if parts.len() > 0 {
        let front = parts.drop_last();
        assert forall|i: int| 0 <= i < front.len() implies ({
            ||| plain(#[trigger] front[i])
            ||| i == 0 && (front[i] == root() || front[i] == dot())
        }) by {
            assert(front[i] == parts[i]);
        }
        lemma_folded_settled(front);
        let sofar = folded(front);
        let now = folded(parts);
        let next = parts.last();
        assert(plain(next) || (parts.len() == 1 && (next == root() || next == dot())));
        assert forall|i: int| 0 <= i < now.len() implies (plain(#[trigger] now[i]) || (i == 0
            && now[i] == root())) && now[i] != dotdot() by {
            if i < sofar.len() {
                assert(now[i] == sofar[i]);
            } else {
                assert(now[i] == next);
                assert(root() != dotdot()) by {
                    assert(root().len() != dotdot().len());
                }
            }
        }
    }
}

/// Settled components stay as they are when they are folded.
pub proof fn lemma_folded_same(parts: Seq<Seq<u8>>)
    requires
        settled(parts),
    ensures
        folded(parts) == parts,
    decreases parts.len(),
{
    if parts.len() > 0 {
        let front = parts.drop_last();
        lemma_settled_prefix(parts, parts.len() - 1);
        assert(front =~= parts.take(parts.len() - 1));
        lemma_folded_same(front);
        let next = parts.last();
        assert(parts[parts.len() - 1] == next);
        assert(root() != dot()) by {
            assert(root()[0] != dot()[0]);
        }
        assert(front.push(next) =~= parts);
    }
}

/// A normal path has exactly the components that folding leaves, and neither `.` nor `..` is
/// among them.
pub proof fn normal_is_settled(p: Seq<u8>)
    ensures
        components(normal(p)) == folded(components(p)),
        settled(components(normal(p))),
{
    lemma_components_shape(p);
    lemma_folded_settled(components(p));
    components_of_render(folded(components(p)));
}

/// Normalising twice is normalising once.
pub proof fn normal_is_idempotent(p: Seq<u8>)
    ensures
        normal(normal(p)) == normal(p),
{
    normal_is_settled(p);
    lemma_folded_same(components(normal(p)));
}

/// A normal path is rooted exactly when the path it was made from is.
pub proof fn normal_keeps_root(p: Seq<u8>)
    ensures
        rooted(normal(p)) == rooted(p),
{
    let parts = components(p);
    lemma_components_shape(p);
    if rooted(p) {
        lemma_folded_keeps_first(parts);
        normal_is_settled(p);
        let c = components(normal(p));
        if !rooted(normal(p)) {
            lemma_components_shape(normal(p));
            assert(root() != dot()) by {
                assert(root()[0] != dot()[0]);
            }
            lemma_unrooted_components(normal(p));
            assert(c[0] == root());
        }
    } else {
        lemma_unrooted_components(p);
        lemma_folded_unrooted(parts);
        normal_is_settled(p);
        if rooted(normal(p)) {
            assert(components(normal(p))[0] == root());
        }
    }
}

proof fn lemma_unrooted_components(p: Seq<u8>)
    requires
        !rooted(p),
    ensures
        forall|i: int| 0 <= i < components(p).len() ==> #[trigger] components(p)[i] != root(),
{
    let pred = |piece: Seq<u8>| names_component(piece);
    let all = text::pieces(p, SLASH);
    lemma_pieces_without(p, SLASH);
    let kept = body(p);
    assert forall|i: int| 0 <= i < kept.len() implies #[trigger] kept[i] != root() by {
        broadcast use vstd::seq_lib::group_filter_ensures;

        assert(kept.contains(kept[i]));
        all.lemma_filter_contains_rev(pred, kept[i]);
        let k = choose|k: int| 0 <= k < all.len() && all[k] == kept[i];
        assert(!all[k].contains(SLASH));
        assert(root()[0] == SLASH);
        assert(root().contains(SLASH));
    }
    assert(root() != dot()) by {
        assert(root()[0] != dot()[0]);
    }
    assert forall|i: int| 0 <= i < components(p).len() implies #[trigger] components(p)[i]
        != root() by {
        if components(p).len() == kept.len() {
            assert(components(p)[i] == kept[i]);
        } else if i > 0 {
            assert(components(p)[i] == kept[i - 1]);
        }
    }
}

proof fn lemma_folded_keeps_first(parts: Seq<Seq<u8>>)
    requires
        parts.len() > 0,
        parts[0] == root(),
    ensures
        folded(parts).len() > 0,
        folded(parts)[0] == root(),
    decreases parts.len(),
{
    if parts.len() == 1 {
        assert(folded(parts.drop_last()) =~= Seq::empty());
        assert(root() != dot()) by {
            assert(root()[0] != dot()[0]);
        }
        assert(root() != dotdot()) by {
            assert(root().len() != dotdot().len());
        }
    } else {
        lemma_folded_keeps_first(parts.drop_last());
    }
}

proof fn lemma_folded_unrooted(parts: Seq<Seq<u8>>)
    requires
        forall|i: int| 0 <= i < parts.len() ==> #[trigger] parts[i] != root(),
    ensures
        forall|i: int| 0 <= i < folded(parts).len() ==> #[trigger] folded(parts)[i] != root(),
    decreases parts.len(),
{
    if parts.len() > 0 {
        let front = parts.drop_last();
        assert forall|i: int| 0 <= i < front.len() implies #[trigger] front[i] != root() by {
            assert(front[i] == parts[i]);
        }
        lemma_folded_unrooted(front);
        assert(parts[parts.len() - 1] != root());
        assert forall|i: int| 0 <= i < folded(parts).len() implies #[trigger] folded(parts)[i]
            != root() by {
            if i < folded(front).len() {
                assert(folded(parts)[i] == folded(front)[i]);
            }
        }
    }
}

/// A path under a directory is under no other directory, unless one of the two is under the other.
pub proof fn under_one_branch(p: Seq<u8>, dir: Seq<u8>, other: Seq<u8>)
    requires
        under(p, dir),
        !under(dir, other),
        !under(other, dir),
    ensures
        !under(p, other),
{
    let (c, d, o) = (components(p), components(dir), components(other));
    if under(p, other) {
        if d.len() <= o.len() {
            assert(o.take(d.len() as int) =~= c.take(d.len() as int));
        } else {
            assert(d.take(o.len() as int) =~= c.take(o.len() as int));
        }
    }
}

/// Where `after_last` points.
proof fn lemma_after_last(s: Seq<u8>, x: u8)
    ensures
        after_last(s, x) <= s.len(),
        after_last(s, x) > 0 ==> s[after_last(s, x) - 1] == x,
        forall|i: int| after_last(s, x) <= i < s.len() ==> s[i] != x,
    decreases s.len(),
{
    if s.len() == 0 || s.last() == x {
    } else {
        lemma_after_last(s.drop_last(), x);
        assert forall|i: int| after_last(s, x) <= i < s.len() implies s[i] != x by {
            if i < s.len() - 1 {
                assert(s.drop_last()[i] == s[i]);
            }
        }
    }
}

/// `after_last` is the one place with what `lemma_after_last` says.
pub proof fn lemma_after_last_is(s: Seq<u8>, x: u8, n: int)
    requires
        0 <= n <= s.len(),
        n > 0 ==> s[n - 1] == x,
        forall|i: int| n <= i < s.len() ==> s[i] != x,
    ensures
        after_last(s, x) == n,
{
    lemma_after_last(s, x);
    if after_last(s, x) < n {
        assert(s[n - 1] != x);
    }
    if after_last(s, x) > n {
        assert(s[after_last(s, x) - 1] != x);
    }
}

proof fn lemma_trim_tail(p: Seq<u8>)
    ensures
        trim_tail(p).len() <= p.len(),
        trim_tail(p) == p.take(trim_tail(p).len() as int),
        trim_tail(trim_tail(p)) == trim_tail(p),
        p.len() > 0 ==> trim_tail(p).len() > 0,
    decreases p.len(),
{
    if p.len() > 1 && (p.last() == SLASH || (p.last() == DOT && p[p.len() - 2] == SLASH)) {
        lemma_trim_tail(p.drop_last());
        assert(p.drop_last().take(trim_tail(p).len() as int) =~= p.take(trim_tail(p).len() as int));
    } else {
        assert(p.take(p.len() as int) =~= p);
    }
}

/// A plain name added to a path stands behind its last slash, with nothing to trim behind it.
pub proof fn lemma_push_tail(base: Seq<u8>, name: Seq<u8>)
    requires
        plain(name),
    ensures
        ({
            let whole = push(base, name);
            let n = whole.len() - name.len();
            &&& whole.skip(n) == name
            &&& after_last(whole, SLASH) == n
            &&& trim_tail(whole) == whole
        }),
{
    let whole = push(base, name);
    lemma_plain_not_rooted(name);
    let n = whole.len() - name.len();
    assert(whole.skip(n) =~= name);
    assert forall|i: int| n <= i < whole.len() implies whole[i] != SLASH by {
        assert(name[i - n] == whole[i]);
        assert(name.contains(name[i - n]));
    }
    lemma_after_last_is(whole, SLASH, n);
    if whole.len() > 1 && whole.last() == DOT && whole[whole.len() - 2] == SLASH {
        assert(name.len() == 1) by {
            if name.len() > 1 {
                assert(whole[whole.len() - 2] != SLASH);
            }
        }
        assert(name =~= dot());
    }
}

/// A plain name added to a path, other than `..`, is its file name.
pub proof fn file_name_of_push(base: Seq<u8>, name: Seq<u8>)
    requires
        plain(name),
        name != dotdot(),
    ensures
        file_name(push(base, name)) == Some(name),
{
    lemma_push_tail(base, name);
}

/// A plain name added to a path, other than `..`, is what taking the parent removes.
pub proof fn parent_of_push(base: Seq<u8>, name: Seq<u8>)
    requires
        plain(name),
        name != dotdot(),
        trim_tail(base) == base,
    ensures
        parent(push(base, name)) == Some(base),
        trim_tail(push(base, name)) == push(base, name),
{
    let whole = push(base, name);
    lemma_push_tail(base, name);
    lemma_plain_not_rooted(name);
    let front = whole.take(whole.len() - name.len());
    if base.len() > 0 && base.last() != SLASH {
        assert(front =~= base + root());
        assert(front.drop_last() =~= base);
    } else {
        assert(front =~= base);
        lemma_trim_tail(base);
    }
}

/// The parent of a path of settled components is the path of all but the last of them.
pub proof fn parent_of_render(parts: Seq<Seq<u8>>)
    requires
        settled(parts),
        parts.len() > 1 || (parts.len() == 1 && parts[0] != root()),
    ensures
        parent(render(parts)) == Some(render(parts.drop_last())),
{
    let front = parts.drop_last();
    lemma_settled_prefix(parts, parts.len() - 1);
    assert(front =~= parts.take(parts.len() - 1));
    lemma_render_trimmed(front);
    assert(plain(parts[parts.len() - 1]));
    parent_of_push(render(front), parts.last());
}

proof fn lemma_render_trimmed(parts: Seq<Seq<u8>>)
    requires
        settled(parts),
    ensures
        trim_tail(render(parts)) == render(parts),
    decreases parts.len(),
{
    if parts.len() > 0 {
        let front = parts.drop_last();
        lemma_settled_prefix(parts, parts.len() - 1);
        assert(front =~= parts.take(parts.len() - 1));
        lemma_render_trimmed(front);
        let next = parts[parts.len() - 1];
        if plain(next) {
            parent_of_push(render(front), next);
        } else {
            assert(render(parts) == root());
        }
    }
}

/// Where the extension of a file name stands: at the end of the path, behind a dot that is not the
/// first byte of the name.
pub proof fn lemma_extension_place(p: Seq<u8>)
    requires
        file_name(p) is Some,
    ensures
        ({
            let whole = trim_tail(p);
            let from = after_last(whole, SLASH);
            &&& from < whole.len()
            &&& from > 0 ==> whole[from - 1] == SLASH
            &&& forall|i: int| from <= i < whole.len() ==> whole[i] != SLASH
            &&& extension(p) matches Some(ext) ==> {
                &&& from + 1 + ext.len() < whole.len()
                &&& whole.skip(whole.len() - ext.len()) == ext
                &&& forall|i: int| 0 <= i < ext.len() ==> ext[i] != SLASH
            }
        }),
{
    let whole = trim_tail(p);
    let from = after_last(whole, SLASH);
    let name = last_component(p);
    lemma_after_last(whole, SLASH);
    lemma_after_last(name, DOT);
    if let Some(ext) = extension(p) {
        assert(whole.skip(whole.len() - ext.len()) =~= ext);
        assert forall|i: int| 0 <= i < ext.len() implies ext[i] != SLASH by {
            assert(ext[i] == whole[whole.len() - ext.len() + i]);
        }
    }
}

/// The last component of a path that ends with neither a slash nor a dot, and has no slash from
/// `from` on, starts there.
pub proof fn lemma_last_component_is(p: Seq<u8>, from: int)
    requires
        0 <= from < p.len(),
        from > 0 ==> p[from - 1] == SLASH,
        p.last() != DOT,
        forall|i: int| from <= i < p.len() ==> p[i] != SLASH,
    ensures
        trim_tail(p) == p,
        after_last(p, SLASH) == from,
{
    lemma_after_last_is(p, SLASH, from);
}

/// The components of `p`.
pub fn components_of(p: &[u8]) -> (r: Vec<Vec<u8>>)
    ensures
        bytes::views(r@) == components(p@),
{
    let all = bytes::split(p, SLASH);
    let ghost pieces = text::pieces(p@, SLASH);
    let ghost pred = |piece: Seq<u8>| names_component(piece);
    proof {
        lemma_pieces_without(p@, SLASH);
    }
    let mut out: Vec<Vec<u8>> = Vec::new();
    let single_dot: [u8; 1] = [DOT];
    let single_slash: [u8; 1] = [SLASH];
    assert(single_dot@ =~= dot());
    assert(single_slash@ =~= root());
    if p.len() > 0 && p[0] == SLASH {
        out.push(vstd::slice::slice_to_vec(&single_slash));
    } else if bytes::same(all[0].as_slice(), &single_dot) {
        assert(pieces[0] == all@[0]@);
        out.push(vstd::slice::slice_to_vec(&single_dot));
    } else {
        assert(pieces[0] == all@[0]@);
    }
    let ghost lead = bytes::views(out@);
    assert(lead =~= (if rooted(p@) {
        seq![root()]
    } else if pieces[0] == dot() {
        seq![dot()]
    } else {
        Seq::empty()
    }));
    assert(components(p@) =~= lead + body(p@));
    let mut i: usize = 0;
    assert(pieces.take(0).filter(pred) =~= Seq::empty()) by {
        reveal_with_fuel(Seq::filter, 1);
    }
    assert(bytes::views(out@) =~= lead + pieces.take(0).filter(pred));
    while i < all.len()
        invariant
            i <= all@.len(),
            bytes::views(all@) == pieces,
            pred == (|piece: Seq<u8>| names_component(piece)),
            single_dot@ == dot(),
            bytes::views(out@) == lead + pieces.take(i as int).filter(pred),
        decreases all@.len() - i,
    {
        let ghost before = bytes::views(out@);
        assert(pieces[i as int] == all@[i as int]@);
        assert(pieces.take(i + 1).drop_last() =~= pieces.take(i as int));
        assert(pieces.take(i + 1).last() == pieces[i as int]);
        reveal_with_fuel(Seq::filter, 2);
        if all[i].len() > 0 && !bytes::same(all[i].as_slice(), &single_dot) {
            let piece = vstd::slice::slice_to_vec(all[i].as_slice());
            out.push(piece);
            assert(bytes::views(out@) =~= before.push(piece@));
            assert(pred(pieces[i as int]));
            assert(pieces.take(i + 1).filter(pred) =~= pieces.take(i as int).filter(pred).push(
                piece@,
            ));
        } else {
            assert(!pred(pieces[i as int]));
            assert(pieces.take(i + 1).filter(pred) =~= pieces.take(i as int).filter(pred));
        }
        assert(bytes::views(out@) =~= lead + pieces.take(i + 1).filter(pred));
        i += 1;
    }
    assert(pieces.take(i as int) =~= pieces);
    out
}

/// `name` added to the end of `base`; `name` alone when it is rooted.
pub fn pushed(base: &[u8], name: &[u8]) -> (r: Vec<u8>)
    ensures
        r@ == push(base@, name@),
{
    if name.len() > 0 && name[0] == SLASH {
        return vstd::slice::slice_to_vec(name);
    }
    let mut out = vstd::slice::slice_to_vec(base);
    if base.len() > 0 && base[base.len() - 1] != SLASH {
        out.push(SLASH);
        assert(out@ =~= base@ + root());
    }
    bytes::append(&mut out, name);
    out
}

/// The names `names[from..to]` added to the end of `base`.
pub fn pushed_all(base: &[u8], names: &Vec<Vec<u8>>, from: usize, to: usize) -> (r: Vec<u8>)
    requires
        from <= to <= names@.len(),
    ensures
        r@ == push_all(base@, bytes::views(names@).subrange(from as int, to as int)),
{
    let mut out = vstd::slice::slice_to_vec(base);
    let mut i: usize = from;
    let ghost all = bytes::views(names@);
    while i < to
        invariant
            from <= i <= to <= names@.len(),
            all == bytes::views(names@),
            out@ == push_all(base@, all.subrange(from as int, i as int)),
        decreases to - i,
    {
        assert(all.subrange(from as int, i + 1).drop_last() =~= all.subrange(
            from as int,
            i as int,
        ));
        assert(all.subrange(from as int, i + 1).last() == names@[i as int]@);
        out = pushed(out.as_slice(), names[i].as_slice());
        i += 1;
    }
    out
}

/// The components of `p` with `.` and `..` folded away.
pub fn folded_components(p: &[u8]) -> (r: Vec<Vec<u8>>)
    ensures
        bytes::views(r@) == folded(components(p@)),
{
    let parts = components_of(p);
    let ghost all = components(p@);
    let mut out: Vec<Vec<u8>> = Vec::new();
    let single_dot: [u8; 1] = [DOT];
    let double_dot: [u8; 2] = [DOT, DOT];
    let single_slash: [u8; 1] = [SLASH];
    assert(single_dot@ =~= dot());
    assert(double_dot@ =~= dotdot());
    assert(single_slash@ =~= root());
    let mut i: usize = 0;
    assert(all.take(0) =~= Seq::empty());
    assert(bytes::views(out@) =~= Seq::empty());
    while i < parts.len()
        invariant
            i <= parts@.len(),
            all == bytes::views(parts@),
            single_dot@ == dot(),
            double_dot@ == dotdot(),
            single_slash@ == root(),
            bytes::views(out@) == folded(all.take(i as int)),
        decreases parts@.len() - i,
    {
        let ghost before = bytes::views(out@);
        assert(all.take(i + 1).drop_last() =~= all.take(i as int));
        assert(all.take(i + 1).last() == parts@[i as int]@);
        let part = parts[i].as_slice();
        if bytes::same(part, &single_dot) {
        } else if bytes::same(part, &double_dot) {
            if out.len() > 0 {
                assert(before.last() == out@.last()@);
                if !bytes::same(out[out.len() - 1].as_slice(), &single_slash) {
                    out.pop();
                    assert(bytes::views(out@) =~= before.drop_last());
                }
            }
        } else {
            out.push(vstd::slice::slice_to_vec(part));
            assert(bytes::views(out@) =~= before.push(part@));
        }
        i += 1;
    }
    assert(all.take(i as int) =~= all);
    out
}

/// `.` and `..` folded without touching the file system.
pub fn normalise(p: &[u8]) -> (r: Vec<u8>)
    ensures
        r@ == normal(p@),
{
    let parts = folded_components(p);
    let none: [u8; 0] = [];
    assert(none@ =~= Seq::empty());
    assert(bytes::views(parts@).subrange(0, parts@.len() as int) =~= bytes::views(parts@));
    pushed_all(&none, &parts, 0, parts.len())
}

/// Whether the components of `p` begin with those of `base`.
pub fn is_under(p: &[u8], base: &[u8]) -> (r: bool)
    ensures
        r == under(p@, base@),
{
    let c = components_of(p);
    let b = components_of(base);
    let ghost (cs, bs) = (components(p@), components(base@));
    if b.len() > c.len() {
        return false;
    }
    let mut i: usize = 0;
    while i < b.len()
        invariant
            i <= b@.len() <= c@.len(),
            cs == bytes::views(c@),
            bs == bytes::views(b@),
            cs == components(p@),
            bs == components(base@),
            forall|k: int| 0 <= k < i ==> cs[k] == bs[k],
        decreases b@.len() - i,
    {
        assert(cs[i as int] == c@[i as int]@);
        assert(bs[i as int] == b@[i as int]@);
        if !bytes::same(c[i].as_slice(), b[i].as_slice()) {
            assert(cs.take(bs.len() as int)[i as int] != bs[i as int]);
            return false;
        }
        i += 1;
    }
    assert(cs.take(bs.len() as int) =~= bs);
    true
}

/// How long `p` is without the slashes and `/.` behind its last component.
fn tail_end(p: &[u8]) -> (r: usize)
    ensures
        r <= p@.len(),
        p@.take(r as int) == trim_tail(p@),
{
    let mut n: usize = p.len();
    assert(p@.take(n as int) =~= p@);
    while n > 1 && (p[n - 1] == SLASH || (p[n - 1] == DOT && p[n - 2] == SLASH))
        invariant
            n <= p@.len(),
            trim_tail(p@.take(n as int)) == trim_tail(p@),
        decreases n,
    {
        assert(p@.take(n as int).drop_last() =~= p@.take(n - 1));
        n -= 1;
    }
    n
}

/// The place behind the last `x` of `p[..end]`.
fn behind_last(p: &[u8], end: usize, x: u8) -> (r: usize)
    requires
        end <= p@.len(),
    ensures
        r <= end,
        r == after_last(p@.take(end as int), x),
{
    let mut n: usize = end;
    while n > 0 && p[n - 1] != x
        invariant
            n <= end <= p@.len(),
            forall|i: int| n <= i < end ==> p@[i] != x,
        decreases n,
    {
        n -= 1;
    }
    proof {
        lemma_after_last_is(p@.take(end as int), x, n as int);
    }
    n
}

/// `p` without its last component.
pub fn parent_of(p: &[u8]) -> (r: Option<Vec<u8>>)
    ensures
        match (r, parent(p@)) {
            (Some(dir), Some(expected)) => dir@ == expected,
            (None, None) => true,
            _ => false,
        },
{
    let end = tail_end(p);
    let from = behind_last(p, end, SLASH);
    assert(last_component(p@) =~= p@.subrange(from as int, end as int));
    if from == end {
        return None;
    }
    let dir = bytes::slice_of(p, 0, from);
    assert(dir@ =~= trim_tail(p@).take(from as int));
    let n = tail_end(dir.as_slice());
    assert(dir@.subrange(0, n as int) =~= dir@.take(n as int));
    Some(bytes::slice_of(dir.as_slice(), 0, n))
}

/// The last component of `p`, when it is a name.
pub fn file_name_of(p: &[u8]) -> (r: Option<Vec<u8>>)
    ensures
        match (r, file_name(p@)) {
            (Some(name), Some(expected)) => name@ == expected,
            (None, None) => true,
            _ => false,
        },
{
    let end = tail_end(p);
    let from = behind_last(p, end, SLASH);
    let name = bytes::slice_of(p, from, end);
    assert(last_component(p@) =~= name@);
    let single_dot: [u8; 1] = [DOT];
    let double_dot: [u8; 2] = [DOT, DOT];
    assert(single_dot@ =~= dot());
    assert(double_dot@ =~= dotdot());
    if name.len() == 0 || bytes::same(name.as_slice(), &single_dot) || bytes::same(
        name.as_slice(),
        &double_dot,
    ) {
        None
    } else {
        Some(name)
    }
}

/// What stands behind the last dot of the file name of `p`, when that dot is not its first byte.
pub fn extension_of_path(p: &[u8]) -> (r: Option<Vec<u8>>)
    ensures
        match (r, extension(p@)) {
            (Some(ext), Some(expected)) => ext@ == expected,
            (None, None) => true,
            _ => false,
        },
{
    match file_name_of(p) {
        None => None,
        Some(name) => {
            let at = behind_last(name.as_slice(), name.len(), DOT);
            assert(name@.take(name@.len() as int) =~= name@);
            if at >= 2 {
                assert(name@.subrange(at as int, name@.len() as int) =~= name@.skip(at as int));
                Some(bytes::slice_of(name.as_slice(), at, name.len()))
            } else {
                None
            }
        },
    }
}

/// `p` with `ext` for the extension of its file name.
pub fn replace_extension(p: &[u8], ext: &[u8]) -> (r: Vec<u8>)
    ensures
        r@ == with_extension(p@, ext@),
{
    if file_name_of(p).is_none() {
        return vstd::slice::slice_to_vec(p);
    }
    let end = tail_end(p);
    let ghost whole = trim_tail(p@);
    let mut out = bytes::slice_of(p, 0, end);
    assert(out@ =~= whole);
    if let Some(old) = extension_of_path(p) {
        proof {
            let name = last_component(p@);
            lemma_after_last(name, DOT);
            lemma_after_last(whole, SLASH);
            assert(old@.len() + 1 <= name.len() <= whole.len());
        }
        let keep = end - old.len() - 1;
        out = bytes::slice_of(p, 0, keep);
        assert(out@ =~= whole.take(whole.len() - old@.len() - 1));
    }
    if ext.len() > 0 {
        out.push(DOT);
        bytes::append(&mut out, ext);
    }
    proof {
        let stem = match extension(p@) {
            Some(old) => whole.take(whole.len() - old.len() - 1),
            None => whole,
        };
        if ext@.len() > 0 {
            assert(out@ =~= stem + dot() + ext@);
        }
    }
    out
}

/// The path as text, with U+FFFD for what is not UTF-8.
pub fn display(p: &[u8]) -> (r: String)
    ensures
        r@ == bytes::shown(p@),
{
    bytes::lossy(p)
}

} // verus!
