//! Laws of the file tools.

use vstd::prelude::*;
use vstd::utf8::*;

use crate::bytes;
use crate::files;
use crate::follow;
use crate::number;
use crate::path;
use crate::text;

verus! {

/// Whether the components `place` begin with those of one of the roots.
pub open spec fn begins_with_a_root(place: Seq<Seq<u8>>, roots: Seq<Seq<u8>>) -> bool {
    exists|i: int|
        0 <= i < roots.len() && path::components(#[trigger] roots[i]).is_prefix_of(place)
}

/// A place is allowed when its components begin with those of a root, for any root of any list, and
/// only then; without roots every place is.
pub proof fn places_are_allowed_under_any_root(place: Seq<u8>, roots: Seq<Seq<u8>>)
    ensures
        files::allowed(place, roots) <==> roots.len() == 0 || begins_with_a_root(
            path::components(place),
            roots,
        ),
{
    let c = path::components(place);
    if roots.len() > 0 && files::allowed(place, roots) {
        let i = choose|i: int| 0 <= i < roots.len() && path::under(place, #[trigger] roots[i]);
        crate::laws::path::under_is_a_prefix(place, roots[i]);
        assert(path::components(roots[i]).is_prefix_of(c));
    }
    if begins_with_a_root(c, roots) {
        let i = choose|i: int|
            0 <= i < roots.len() && path::components(#[trigger] roots[i]).is_prefix_of(c);
        crate::laws::path::under_is_a_prefix(place, roots[i]);
        assert(path::under(place, roots[i]));
    }
}

/// The ancestor that a search finds is the one that exists when none deeper does.
proof fn lemma_found_is(
    parts: Seq<Seq<u8>>,
    depth: nat,
    d: nat,
    disk: spec_fn(Seq<u8>) -> follow::Spot,
)
    requires
        0 < d <= depth <= parts.len(),
        follow::is_there(disk(path::render(parts.take(d as int)))),
        forall|k: int|
            d < k <= parts.len() ==> !follow::is_there(
                disk(path::render(#[trigger] parts.take(k))),
            ),
    ensures
        files::found_depth(parts, depth, disk) == d,
    decreases depth,
{
    if depth > d {
        assert(!follow::is_there(disk(path::render(parts.take(depth as int)))));
        lemma_found_is(parts, (depth - 1) as nat, d, disk);
    }
}

/// A path is served exactly when it lies under a root. Let the first `d` components of the path
/// that a client names, taken against the shell's directory, be the longest part of it that exists,
/// with the canonical form `c`, and let no link that leads nowhere be among the others. Then the
/// path resolves to `c` with the other components behind it when there are no roots or those
/// components begin with the components of a root, and is refused as outside else.
pub proof fn paths_are_served_exactly_under_a_root(
    path: Seq<char>,
    cwd: Seq<u8>,
    fs: files::FileSystem,
    roots: Seq<Seq<u8>>,
    d: nat,
    c: Seq<u8>,
)
    requires
        ({
            let parts = files::target_parts(path, cwd);
            &&& 0 < d <= parts.len()
            &&& follow::is_there((fs.spots)(path::render(parts.take(d as int))))
            &&& forall|k: int|
                d < k <= parts.len() ==> (fs.spots)(path::render(#[trigger] parts.take(k)))
                    is Absent
            &&& (fs.canonical)(path::render(parts.take(d as int))) == Some(c)
        }),
    ensures
        ({
            let parts = files::target_parts(path, cwd);
            let place = path::push_all(c, parts.skip(d as int));
            let inside = begins_with_a_root(path::components(place), roots);
            files::resolution(path, cwd, fs, roots) == (if roots.len() == 0 || inside {
                Ok::<Seq<u8>, files::Failure>(place)
            } else {
                Err(files::Failure::Outside { path: place, roots })
            })
        }),
{
    let parts = files::target_parts(path, cwd);
    assert forall|k: int| d < k <= parts.len() implies !follow::is_there(
        (fs.spots)(path::render(#[trigger] parts.take(k))),
    ) by {
        assert((fs.spots)(path::render(parts.take(k))) is Absent);
    }
    lemma_found_is(parts, parts.len(), d, fs.spots);
    assert(!files::meets_dangling(parts, parts.len(), fs.spots)) by {
        if files::meets_dangling(parts, parts.len(), fs.spots) {
            let k = choose|k: nat|
                d <= k <= parts.len() && follow::leads_nowhere(
                    (fs.spots)(#[trigger] files::ancestor(parts, k)),
                );
            if k > d {
                assert((fs.spots)(path::render(parts.take(k as int))) is Absent);
            }
        }
    }
    let place = path::push_all(c, parts.skip(d as int));
    places_are_allowed_under_any_root(place, roots);
}

/// A link that leads nowhere is looked through. Let the `link`-th component of a path be such a
/// link, the next shorter part of the path be the longest that exists, with the canonical form `c`,
/// and nothing stand behind the link. Then the path resolves, to `c` with the other components
/// behind it, when there are no roots, or when both that path and where following the links leads
/// begin with the components of a root. It is refused as outside when one of them does not, with
/// that one named, and as not to be followed when the links cannot be followed.
pub proof fn links_to_nowhere_are_looked_through(
    path: Seq<char>,
    cwd: Seq<u8>,
    fs: files::FileSystem,
    roots: Seq<Seq<u8>>,
    link: nat,
    c: Seq<u8>,
)
    requires
        ({
            let parts = files::target_parts(path, cwd);
            &&& 1 < link <= parts.len()
            &&& follow::leads_nowhere((fs.spots)(path::render(parts.take(link as int))))
            &&& follow::is_there((fs.spots)(path::render(parts.take(link - 1))))
            &&& forall|k: int|
                link < k <= parts.len() ==> (fs.spots)(path::render(#[trigger] parts.take(k)))
                    is Absent
            &&& (fs.canonical)(path::render(parts.take(link - 1))) == Some(c)
        }),
    ensures
        ({
            let parts = files::target_parts(path, cwd);
            let place = path::push_all(c, parts.skip(link - 1));
            let r = files::resolution(path, cwd, fs, roots);
            if roots.len() == 0 {
                r == Ok::<Seq<u8>, files::Failure>(place)
            } else if !begins_with_a_root(path::components(place), roots) {
                r == Err::<Seq<u8>, files::Failure>(files::Failure::Outside { path: place, roots })
            } else {
                match follow::led_to(parts, fs.spots) {
                    None => r == Err::<Seq<u8>, files::Failure>(
                        files::Failure::Unfollowed { path: place },
                    ),
                    Some(at) => if begins_with_a_root(
                        path::components(path::render(at)),
                        roots,
                    ) {
                        r == Ok::<Seq<u8>, files::Failure>(place)
                    } else {
                        r == Err::<Seq<u8>, files::Failure>(
                            files::Failure::Outside { path: path::render(at), roots },
                        )
                    },
                }
            }
        }),
{
    let parts = files::target_parts(path, cwd);
    let d = (link - 1) as nat;
    assert forall|k: int| d < k <= parts.len() implies !follow::is_there(
        (fs.spots)(path::render(#[trigger] parts.take(k))),
    ) by {
        if k > link {
            assert((fs.spots)(path::render(parts.take(k))) is Absent);
        }
    }
    lemma_found_is(parts, parts.len(), d, fs.spots);
    assert(d <= link <= parts.len() && follow::leads_nowhere(
        (fs.spots)(files::ancestor(parts, link)),
    ));
    assert(files::meets_dangling(parts, parts.len(), fs.spots));
    let place = path::push_all(c, parts.skip(d as int));
    places_are_allowed_under_any_root(place, roots);
    if let Some(at) = follow::led_to(parts, fs.spots) {
        places_are_allowed_under_any_root(path::render(at), roots);
    }
}

/// A path that exists but has no canonical form, or of which no part exists, is held against the
/// roots as it is.
pub proof fn paths_without_a_canonical_form_stand_for_themselves(
    path: Seq<char>,
    cwd: Seq<u8>,
    fs: files::FileSystem,
    roots: Seq<Seq<u8>>,
)
    requires
        forall|p: Seq<u8>| (#[trigger] (fs.canonical)(p)) is None,
        forall|p: Seq<u8>| !follow::leads_nowhere(#[trigger] (fs.spots)(p)),
    ensures
        ({
            let parts = files::target_parts(path, cwd);
            let place = path::render(parts);
            let inside = begins_with_a_root(path::components(place), roots);
            files::resolution(path, cwd, fs, roots) == (if roots.len() == 0 || inside {
                Ok::<Seq<u8>, files::Failure>(place)
            } else {
                Err(files::Failure::Outside { path: place, roots })
            })
        }),
{
    let parts = files::target_parts(path, cwd);
    files::search_finds_deepest(parts, parts.len(), fs.spots);
    let d = files::found_depth(parts, parts.len(), fs.spots);
    path::lemma_push_all_split(Seq::empty(), parts, d as int);
    places_are_allowed_under_any_root(path::render(parts), roots);
}

/// A search starts where it is to end, and is at its end when it is over.
pub proof fn searches_start_and_end(
    parts: Seq<Seq<u8>>,
    end: files::End,
    disk: spec_fn(Seq<u8>) -> follow::Spot,
)
    ensures
        files::end_from(
            parts,
            files::State::Climb { depth: parts.len(), dangling: false },
            disk,
        ) == files::search_end(parts, disk),
        files::end_from(parts, files::State::Over(end), disk) == end,
{
}

/// A path from a client is taken against the shell's directory unless it is rooted.
pub proof fn rooted_paths_stand_alone(path: Seq<char>, cwd: Seq<u8>, other: Seq<u8>)
    requires
        encode_utf8(path).len() > 0 && encode_utf8(path)[0] == 47u8,
    ensures
        files::target_parts(path, cwd) == files::target_parts(path, other),
{
}

/// A name behind the directory or behind a path from a client is one component more of where it
/// leads, `.` changes nothing, and `..` takes away the last name that is left, never the root.
pub proof fn names_go_down_and_dots_go_up(path: Seq<char>, cwd: Seq<u8>, name: Seq<char>)
    requires
        crate::laws::path::is_name(encode_utf8(name)),
        encode_utf8(name) != seq![46u8, 46u8],
        encode_utf8(path).len() > 0,
    ensures
        files::target_parts(name, cwd) == files::target_parts(Seq::empty(), cwd).push(
            encode_utf8(name),
        ),
        files::target_parts(path + "/"@ + name, cwd) == files::target_parts(path, cwd).push(
            encode_utf8(name),
        ),
        files::target_parts(path + "/."@, cwd) == files::target_parts(path, cwd),
        ({
            let sofar = files::target_parts(path, cwd);
            files::target_parts(path + "/.."@, cwd) == (if sofar.len() > 0 && sofar.last()
                != seq![47u8] {
                sofar.drop_last()
            } else {
                sofar
            })
        }),
{
    let (coded, part) = (encode_utf8(path), encode_utf8(name));
    let up = seq![46u8, 46u8];
    reveal_strlit("/");
    reveal_strlit("/.");
    reveal_strlit("/..");
    is_ascii_chars_encode_utf8("/"@);
    is_ascii_chars_encode_utf8("/."@);
    is_ascii_chars_encode_utf8("/.."@);
    bytes::encode_of_concat(path, "/"@);
    bytes::encode_of_concat(path + "/"@, name);
    bytes::encode_of_concat(path, "/."@);
    bytes::encode_of_concat(path, "/.."@);
    let deeper = coded.push(47u8) + part;
    assert(encode_utf8(path + "/"@ + name) =~= deeper);
    assert(encode_utf8(path + "/."@) =~= coded.push(47u8).push(46u8));
    assert(encode_utf8(path + "/.."@) =~= coded.push(47u8) + up);
    assert(encode_utf8(Seq::<char>::empty()) =~= Seq::empty());
    lemma_name_behind(cwd, coded, part);
    lemma_up_behind(cwd, coded);
    lemma_name_in_directory(cwd, part);
}

proof fn lemma_name_behind(cwd: Seq<u8>, coded: Seq<u8>, part: Seq<u8>)
    requires
        crate::laws::path::is_name(part),
        part != seq![46u8, 46u8],
        coded.len() > 0,
    ensures
        ({
            let sofar = path::folded(path::components(path::push(cwd, coded)));
            &&& path::folded(path::components(path::push(cwd, coded.push(47u8) + part)))
                == sofar.push(part)
            &&& path::folded(path::components(path::push(cwd, coded.push(47u8).push(46u8))))
                == sofar
        }),
{
    let whole = path::push(cwd, coded);
    assert(whole.len() > 0);
    crate::laws::path::components_are_read_from_the_end(whole, part);
    assert(path::push(cwd, coded.push(47u8) + part) =~= whole.push(47u8) + part);
    assert(path::push(cwd, coded.push(47u8).push(46u8)) =~= whole.push(47u8).push(46u8));
    crate::laws::path::folding_goes_by_components(path::components(whole), part);
}

proof fn lemma_up_behind(cwd: Seq<u8>, coded: Seq<u8>)
    requires
        coded.len() > 0,
    ensures
        ({
            let sofar = path::folded(path::components(path::push(cwd, coded)));
            path::folded(path::components(path::push(cwd, coded.push(47u8) + seq![46u8, 46u8])))
                == (if sofar.len() > 0 && sofar.last() != seq![47u8] {
                sofar.drop_last()
            } else {
                sofar
            })
        }),
{
    let whole = path::push(cwd, coded);
    let up = seq![46u8, 46u8];
    assert(whole.len() > 0);
    assert(crate::laws::path::is_name(up)) by {
        assert(up.len() != seq![46u8].len());
    }
    assert(path::push(cwd, coded.push(47u8) + up) =~= whole.push(47u8) + up);
    crate::laws::path::components_are_read_from_the_end(whole, up);
    let other = seq![65u8];
    assert(other[0] != seq![46u8][0]);
    crate::laws::path::folding_goes_by_components(path::components(whole), other);
}

proof fn lemma_name_in_directory(cwd: Seq<u8>, part: Seq<u8>)
    requires
        crate::laws::path::is_name(part),
        part != seq![46u8, 46u8],
    ensures
        path::folded(path::components(path::push(cwd, part))) == path::folded(
            path::components(path::push(cwd, Seq::empty())),
        ).push(part),
{
    let base = path::push(cwd, Seq::empty());
    path::components_of_push(cwd, part);
    if cwd.len() > 0 && cwd.last() != 47u8 {
        assert(base =~= cwd.push(47u8));
        crate::laws::path::components_are_read_from_the_end(cwd, part);
    } else {
        assert(base =~= cwd);
    }
    crate::laws::path::folding_goes_by_components(path::components(cwd), part);
}

/// A reading goes line by line. With a line to show and room for it, it is that line's row and then
/// the reading from the next line on with room for one less: the row is the line's number, with
/// spaces before it up to six characters, a tab, the line and a line feed. A line of at most 2000
/// characters stands there exactly as it is. Without room, it is the note on how many lines are
/// left and where to read on. Behind the last line there is nothing to read.
pub proof fn readings_go_line_by_line(
    path: Seq<u8>,
    content: Seq<char>,
    start: nat,
    limit: nat,
)
    requires
        start >= 1,
    ensures
        ({
            let all = text::lines(content);
            let line = all[start - 1];
            let row = number::right_aligned(number::decimal(start), 6) + "\t"@ + (if line.len()
                <= 2000 {
                line
            } else {
                line.take(2000) + "… [line cut at 2000 characters]"@
            }) + "\n"@;
            let r = files::window(path, content, start, limit);
            if start > all.len() {
                r == Err::<Seq<char>, files::Failure>(
                    files::Failure::PastEnd { path, total: all.len(), start },
                )
            } else if limit == 0 {
                r == Ok::<Seq<char>, files::Failure>(
                    "["@ + number::decimal((all.len() - start + 1) as nat)
                        + " more lines; read from offset "@ + number::decimal(start) + "]\n"@,
                )
            } else if start == all.len() {
                r == Ok::<Seq<char>, files::Failure>(row)
            } else {
                files::window(path, content, start + 1, (limit - 1) as nat) matches Ok(rest) && r
                    == Ok::<Seq<char>, files::Failure>(row + rest)
            }
        }),
{
    let all = text::lines(content);
    if start <= all.len() {
        let end = files::last_line(start, limit, all.len());
        let line = all[start - 1];
        if limit == 0 {
            assert(files::rows(all, start - 1, end as int) =~= Seq::empty());
            let note = files::more_note(end, all.len());
            assert(Seq::<char>::empty() + note =~= note);
        } else {
            let row = files::row(start - 1, line);
            files::rows_continue(all, start - 1, start as int, end as int);
            reveal_with_fuel(files::rows, 2);
            assert(files::rows(all, start - 1, start as int) =~= row);
            let note = files::more_note(end, all.len());
            let back = files::rows(all, start as int, end as int);
            assert(row + back + note =~= row + (back + note));
            if start == all.len() {
                assert(row + back + note =~= row);
            }
        }
    }
}

proof fn lemma_lines_without_breaks(s: Seq<char>)
    ensures
        forall|i: int|
            0 <= i < text::lines(s).len() ==> !(#[trigger] text::lines(s)[i]).contains('\n'),
    decreases s.len(),
{
    let n = text::first_at(s, '\n');
    text::lemma_first_at(s, '\n');
    if s.len() == 0 {
    } else if n >= s.len() {
        assert(!s.contains('\n'));
    } else {
        let rest = s.skip(n as int + 1);
        lemma_lines_without_breaks(rest);
        let first = s.take(n as int);
        assert(!text::strip_cr(first).contains('\n')) by {
            assert forall|i: int| 0 <= i < first.len() implies first[i] != '\n' by {
                assert(first[i] == s[i]);
            }
        }
        let all = text::lines(s);
        assert forall|i: int| 0 <= i < all.len() implies !(#[trigger] all[i]).contains('\n') by {
            if i > 0 {
                assert(all[i] == text::lines(rest)[i - 1]);
            }
        }
    }
}

/// The part of a row before its tab.
proof fn lemma_number_part(n: nat)
    ensures
        ({
            let part = number::right_aligned(number::decimal(n), 6);
            &&& !part.contains('\t')
            &&& !part.contains('\n')
            &&& text::trim(part) == number::decimal(n)
        }),
{
    let digits = number::decimal(n);
    let part = number::right_aligned(digits, 6);
    crate::laws::number::decimals_are_plain(n);
    crate::laws::number::aligning_puts_spaces_before(digits, 6);
    let k = part.len() - digits.len();
    let front = part.take(k);
    assert forall|i: int| 0 <= i < part.len() implies part[i] == ' ' || '0' <= part[i] <= '9' by {
        if i >= k {
            assert(part[i] == part.skip(k)[i - k]);
            assert('0' <= digits[i - k] <= '9');
        }
    }
    assert(crate::laws::text::blank(front));
    assert('0' <= digits[0] <= '9');
    assert('0' <= digits[digits.len() - 1] <= '9');
    crate::laws::text::trimming_keeps_the_middle(front, digits, Seq::empty());
    assert(front + digits + Seq::<char>::empty() =~= part);
}

/// What is shown is what stands in the file: read whole, the `i`-th row, up to its line feed, holds
/// the line's number before its first tab, and behind it exactly the characters of that line, where
/// it has at most 2000.
pub proof fn readings_show_each_line(
    path: Seq<u8>,
    content: Seq<char>,
    start: nat,
    limit: nat,
    i: int,
)
    requires
        1 <= start <= text::lines(content).len(),
        start - 1 + limit >= text::lines(content).len(),
        start - 1 <= i < text::lines(content).len(),
        text::lines(content)[i].len() <= 2000,
    ensures
        files::window(path, content, start, limit) matches Ok(w) && ({
            let row = text::pieces(w, '\n')[i - (start - 1)];
            let tab = text::first_at(row, '\t') as int;
            &&& i - (start - 1) < text::pieces(w, '\n').len()
            &&& tab < row.len()
            &&& row.skip(tab + 1) == text::lines(content)[i]
            &&& text::trim(row.take(tab)) == number::decimal((i + 1) as nat)
        }),
    decreases text::lines(content).len() - start,
{
    let all = text::lines(content);
    let line = all[start - 1];
    readings_go_line_by_line(path, content, start, limit);
    lemma_lines_without_breaks(content);
    lemma_number_part(start);
    reveal_strlit("\t");
    reveal_strlit("\n");
    let part = number::right_aligned(number::decimal(start), 6);
    let shown = files::shown_line(line);
    let row = part + "\t"@ + shown;
    let w = files::window(path, content, start, limit)->Ok_0;
    let rest = if start == all.len() {
        Seq::empty()
    } else {
        files::window(path, content, start + 1, (limit - 1) as nat)->Ok_0
    };
    assert(!shown.contains('\n')) by {
        if line.len() > 2000 {
            lemma_cut_mark();
            let cut = line.take(2000);
            assert forall|k: int| 0 <= k < shown.len() implies shown[k] != '\n' by {
                if k < 2000 {
                    assert(shown[k] == line[k]);
                    assert(line.contains(line[k]));
                } else {
                    let mark = "… [line cut at 2000 characters]"@;
                    assert(shown[k] == mark[k - 2000]);
                    assert(mark.contains(mark[k - 2000]));
                }
            }
        }
    }
    assert(!row.contains('\n')) by {
        assert forall|k: int| 0 <= k < row.len() implies row[k] != '\n' by {
            if k < part.len() {
                assert(row[k] == part[k]);
                assert(part.contains(part[k]));
            } else if k > part.len() {
                assert(row[k] == shown[k - part.len() - 1]);
                assert(shown.contains(shown[k - part.len() - 1]));
            }
        }
    }
    assert(w =~= row.push('\n') + rest);
    crate::laws::text::separators_part(row, '\n', rest);
    if i == start - 1 {
        assert forall|k: int| 0 <= k < part.len() implies row[k] != '\t' by {
            assert(part.contains(part[k]));
        }
        text::lemma_first_at_is(row, '\t', part.len() as int);
        assert(row.skip(part.len() as int + 1) =~= line);
        assert(row.take(part.len() as int) =~= part);
    } else {
        readings_show_each_line(path, content, start + 1, (limit - 1) as nat, i);
        assert(text::pieces(w, '\n')[i - (start - 1)] == text::pieces(rest, '\n')[i - start]);
    }
}

proof fn lemma_cut_mark()
    ensures
        !"… [line cut at 2000 characters]"@.contains('\n'),
{
    reveal_strlit("… [line cut at 2000 characters]");
}

/// Reading starts at the first line where no line is named, or the zeroth is, and shows 2000 lines
/// where no limit is given.
pub proof fn readings_have_their_defaults(n: usize)
    ensures
        files::first_line(None) == 1,
        files::first_line(Some(0)) == 1,
        n > 0 ==> files::first_line(Some(n)) == n,
        files::line_limit(None) == 2000,
        files::line_limit(Some(n)) == n,
{
}

/// A directory, a file that cannot be read and an empty one are refused by name, and any other is
/// read as the text that its bytes show.
pub proof fn only_files_with_content_are_read(
    path: Seq<u8>,
    content: Vec<u8>,
    start: nat,
    limit: nat,
)
    ensures
        files::reading(path, files::Found::Directory, start, limit) == Err::<
            Seq<char>,
            files::Failure,
        >(files::Failure::Directory { path }),
        files::reading(path, files::Found::Unreadable, start, limit) == Err::<
            Seq<char>,
            files::Failure,
        >(files::Failure::Unreadable { path }),
        content@.len() == 0 ==> files::reading(path, files::Found::Content(content), start, limit)
            == Err::<Seq<char>, files::Failure>(files::Failure::Empty { path }),
        content@.len() > 0 ==> files::reading(path, files::Found::Content(content), start, limit)
            == files::window(path, bytes::shown(content@), start, limit),
{
}

/// What an edit does to a text, by where the old text first stands in it. With no such place it is
/// refused. With one, what stands before and behind it stays, and the new text stands between. With
/// more, an edit of one place is refused with their number, and an edit of all gives what stands
/// before the first, the new text, and what an edit of all gives for the text behind it; it counts
/// one place more than that.
pub proof fn edits_go_place_by_place(
    path: Seq<u8>,
    content: Seq<char>,
    old_text: Seq<char>,
    new_text: Seq<char>,
    n: int,
)
    requires
        old_text != new_text,
        old_text.len() > 0,
    ensures
        ({
            let all = files::editing(path, Some(content), old_text, new_text, true);
            let one = files::editing(path, Some(content), old_text, new_text, false);
            let first = content.take(n);
            let rest = content.skip(n + old_text.len());
            let behind = files::editing(path, Some(rest), old_text, new_text, true);
            &&& !crate::laws::text::occurs(content, old_text) ==> {
                &&& all == Err::<(Seq<char>, nat), files::Failure>(
                    files::Failure::NotFound { path },
                )
                &&& one == all
            }
            &&& crate::laws::text::occurs_at(content, old_text, n) && (forall|k: int|
                0 <= k < n ==> !crate::laws::text::occurs_at(content, old_text, k)) ==> {
                if !crate::laws::text::occurs(rest, old_text) {
                    &&& all == Ok::<(Seq<char>, nat), files::Failure>(
                        (first + new_text + rest, 1),
                    )
                    &&& one == all
                } else {
                    &&& behind matches Ok((edited, count)) && {
                        &&& all == Ok::<(Seq<char>, nat), files::Failure>(
                            (first + new_text + edited, count + 1),
                        )
                        &&& one == Err::<(Seq<char>, nat), files::Failure>(
                            files::Failure::Ambiguous { path, count: count + 1 },
                        )
                    }
                }
            }
        }),
{
    crate::laws::text::splitting_parts_at_the_first(content, old_text, n);
    let rest = content.skip(n + old_text.len());
    text::lemma_split_nonempty(content, old_text);
    text::lemma_split_nonempty(rest, old_text);
    if crate::laws::text::occurs_at(content, old_text, n) {
        text::lemma_first_match(rest, old_text);
        let kept = text::split_on(rest, old_text);
        if !crate::laws::text::occurs(rest, old_text) {
            crate::laws::text::splitting_parts_at_the_first(rest, old_text, 0);
            crate::laws::text::joining_adds_one_in_front(content.take(n), seq![rest], new_text);
            crate::laws::text::joining_adds_one_part(Seq::empty(), rest, new_text);
        } else {
            let k = choose|k: int| #[trigger] crate::laws::text::occurs_at(rest, old_text, k);
            text::lemma_first_match_is_first(rest, old_text, k);
            let m = text::first_match(rest, old_text)->0 as int;
            text::lemma_split_nonempty(rest.skip(m + old_text.len()), old_text);
            assert(kept.len() >= 2);
            crate::laws::text::joining_adds_one_in_front(content.take(n), kept, new_text);
        }
    }
}

/// An edit is refused when it would change nothing, when it names no text, and when the file cannot
/// be read as text, in this order.
pub proof fn edits_are_refused_first(
    path: Seq<u8>,
    content: Option<Seq<char>>,
    old_text: Seq<char>,
    new_text: Seq<char>,
    replace_all: bool,
)
    ensures
        ({
            let r = files::editing(path, content, old_text, new_text, replace_all);
            &&& old_text == new_text ==> r == Err::<(Seq<char>, nat), files::Failure>(
                files::Failure::SameStrings,
            )
            &&& old_text != new_text && old_text.len() == 0 ==> r == Err::<
                (Seq<char>, nat),
                files::Failure,
            >(files::Failure::EmptyOldString)
            &&& old_text != new_text && old_text.len() > 0 && content is None ==> r == Err::<
                (Seq<char>, nat),
                files::Failure,
            >(files::Failure::Unreadable { path })
        }),
{
}

/// The file that a new content is first written to is named as the file is, with the program's
/// suffix behind it; a file without an extension has one more dot there.
pub proof fn new_content_goes_to_a_suffixed_name(
    dir: Seq<u8>,
    stem: Seq<u8>,
    ext: Seq<u8>,
    program: Seq<char>,
)
    requires
        stem.len() > 0,
        stem != seq![46u8],
        !stem.contains(47u8),
        !ext.contains(47u8),
        !ext.contains(46u8),
    ensures
        ({
            let named = path::push(dir, stem.push(46u8) + ext);
            valid_utf8(ext) ==> files::temp_path(named, program) == named + encode_utf8(
                "."@ + program + ".tmp"@,
            )
        }),
        !stem.contains(46u8) ==> files::temp_path(path::push(dir, stem), program) == path::push(
            dir,
            stem,
        ).push(46u8) + encode_utf8("."@ + program + ".tmp"@),
{
    let suffix = encode_utf8("."@ + program + ".tmp"@);
    let named = path::push(dir, stem.push(46u8) + ext);
    crate::laws::path::extensions_stand_behind_the_last_dot(dir, stem, ext);
    bytes::encode_of_concat("."@ + program, ".tmp"@);
    reveal_strlit(".tmp");
    is_ascii_chars_encode_utf8(".tmp"@);
    assert(suffix.len() > 0);
    crate::laws::path::extensions_are_replaced(dir, stem, ext, ext + suffix);
    crate::laws::path::extensions_are_replaced(dir, stem, ext, suffix);
    let name = stem.push(46u8) + ext;
    assert(name[0] == stem[0]);
    assert(stem.contains(stem[0]));
    assert(path::push(dir, stem) + seq![46u8] + (ext + suffix) =~= named + suffix);
    assert(path::push(dir, stem) + seq![46u8] + suffix =~= path::push(dir, stem).push(46u8)
        + suffix);
}

/// A write goes through its steps: the parents are created where the path has any, the content is
/// written beside, and the file is replaced; then it is done. A step that fails is the last, and
/// says what could not be done to which path.
pub proof fn writes_go_through_their_steps(
    path: Seq<u8>,
    program: Seq<char>,
    start: files::Disk,
    events: Seq<files::WriteEvent>,
    event: files::WriteEvent,
)
    ensures
        ({
            let w = files::replacement(path, program);
            let first = files::written(w, start, Seq::empty());
            let now = files::written(w, start, events);
            let next = files::written(w, start, events.push(event));
            &&& w.path == path && w.parent == path::parent(path)
            &&& w.temp == files::temp_path(path, program)
            &&& first.disk == start && !first.failed
            &&& first.step == (if path::parent(path) is Some {
                files::WriteStep::CreateParent
            } else {
                files::WriteStep::WriteTemp
            })
            &&& now.failed || now.step == files::WriteStep::Done ==> next == now
            &&& !now.failed && now.step != files::WriteStep::Done ==> {
                &&& next.disk == event.disk
                &&& next.failed == !event.succeeded
                &&& !event.succeeded ==> next.step == now.step
                &&& event.succeeded ==> match now.step {
                    files::WriteStep::CreateParent => next.step == files::WriteStep::WriteTemp,
                    files::WriteStep::WriteTemp => next.step == files::WriteStep::Replace,
                    _ => next.step == files::WriteStep::Done,
                }
            }
            &&& path::parent(path) matches Some(dir) ==> files::step_failure(
                w,
                files::WriteStep::CreateParent,
            ) == (files::Failure::CannotCreate { path: dir })
            &&& files::step_failure(w, files::WriteStep::WriteTemp) == (
            files::Failure::CannotWrite { path: w.temp })
            &&& files::step_failure(w, files::WriteStep::Replace) == (
            files::Failure::CannotReplace { path })
        }),
{
    assert(events.push(event).drop_last() =~= events);
}

/// A refusal names the path that it is about, and the roots, numbers and advice that go with it.
pub proof fn refusals_say_what_they_are_about(
    path: Seq<u8>,
    roots: Seq<Seq<u8>>,
    root: Seq<u8>,
    a: nat,
    b: nat,
)
    ensures
        ({
            let p = bytes::shown(path);
            &&& files::failure_text(files::Failure::Outside { path, roots }) == p
                + " is outside the directories this server serves ("@ + files::path_list(roots)
                + ")"@
            &&& files::failure_text(files::Failure::Unfollowed { path })
                == "cannot follow the links of "@ + p
            &&& files::failure_text(files::Failure::Directory { path }) == p
                + " is a directory, not a file"@
            &&& files::failure_text(files::Failure::Unreadable { path }) == "cannot read "@ + p
            &&& files::failure_text(files::Failure::Empty { path }) == p + " is empty"@
            &&& files::failure_text(files::Failure::PastEnd { path, total: a, start: b }) == p
                + " has "@ + number::decimal(a) + " lines; offset "@ + number::decimal(b)
                + " is past its end"@
            &&& files::failure_text(files::Failure::SameStrings)
                == "old_string and new_string are the same"@
            &&& files::failure_text(files::Failure::EmptyOldString) == "old_string is empty"@
            &&& files::failure_text(files::Failure::NotFound { path })
                == "old_string was not found in "@ + p
            &&& files::failure_text(files::Failure::Ambiguous { path, count: a })
                == "old_string matches "@ + number::decimal(a) + " places in "@ + p
                + "; include more context to make it unique, or set replace_all"@
            &&& files::failure_text(files::Failure::CannotCreate { path }) == "cannot create "@ + p
            &&& files::failure_text(files::Failure::CannotWrite { path }) == "cannot write "@ + p
            &&& files::failure_text(files::Failure::CannotReplace { path }) == "cannot replace "@
                + p
        }),
        files::path_list(Seq::empty()) == Seq::<char>::empty(),
        files::path_list(seq![root]) == bytes::shown(root),
        roots.len() > 0 ==> files::path_list(roots.push(root)) == files::path_list(roots) + ", "@
            + bytes::shown(root),
{
    let each = |p: Seq<u8>| bytes::shown(p);
    let texts = roots.map_values(each);
    assert(Seq::<Seq<u8>>::empty().map_values(each) =~= Seq::empty());
    assert(seq![root].map_values(each) =~= seq![bytes::shown(root)]);
    assert(roots.push(root).map_values(each) =~= texts.push(bytes::shown(root)));
    crate::laws::text::joining_adds_one_part(texts, bytes::shown(root), ", "@);
}

/// Where links lead is inside exactly when it begins with the components of a root, or no link was
/// met that leads nowhere.
pub proof fn leads_are_inside_under_any_root(parts: Seq<Seq<u8>>, roots: Seq<Seq<u8>>)
    requires
        roots.len() > 0,
    ensures
        files::leads_inside(files::Led::NoLink, roots),
        !files::leads_inside(files::Led::Lost, roots),
        files::leads_inside(files::Led::To(parts), roots) == begins_with_a_root(
            path::components(path::render(parts)),
            roots,
        ),
        files::led(Some(parts)) == files::Led::To(parts),
        files::led(None) == files::Led::Lost,
{
    places_are_allowed_under_any_root(path::render(parts), roots);
}

/// A failure is about the paths and numbers that its error holds.
pub proof fn errors_hold_what_they_are_about(
    path: Vec<u8>,
    roots: Vec<Vec<u8>>,
    a: usize,
    b: usize,
)
    ensures
        (files::FileError::Outside { path, roots })@ == (files::Failure::Outside {
            path: path@,
            roots: bytes::views(roots@),
        }),
        (files::FileError::Unfollowed { path })@ == (files::Failure::Unfollowed { path: path@ }),
        (files::FileError::Directory { path })@ == (files::Failure::Directory { path: path@ }),
        (files::FileError::Unreadable { path })@ == (files::Failure::Unreadable { path: path@ }),
        (files::FileError::Empty { path })@ == (files::Failure::Empty { path: path@ }),
        (files::FileError::PastEnd { path, total: a, start: b })@ == (files::Failure::PastEnd {
            path: path@,
            total: a as nat,
            start: b as nat,
        }),
        files::FileError::SameStrings@ == files::Failure::SameStrings,
        files::FileError::EmptyOldString@ == files::Failure::EmptyOldString,
        (files::FileError::NotFound { path })@ == (files::Failure::NotFound { path: path@ }),
        (files::FileError::Ambiguous { path, count: a })@ == (files::Failure::Ambiguous {
            path: path@,
            count: a as nat,
        }),
        (files::FileError::CannotCreate { path })@ == (files::Failure::CannotCreate {
            path: path@,
        }),
        (files::FileError::CannotWrite { path })@ == (files::Failure::CannotWrite { path: path@ }),
        (files::FileError::CannotReplace { path })@ == (files::Failure::CannotReplace {
            path: path@,
        }),
{
}

/// What a tool gave is its text or its failure, a plan of a write is its three paths, and a
/// canonical path is its bytes.
pub proof fn results_hold_what_they_hold(
    text: String,
    e: files::FileError,
    plan: files::WritePlan,
    canonical: &[u8],
)
    ensures
        files::outcome(Ok(text)) == Ok::<Seq<char>, files::Failure>(text@),
        files::outcome(Err(e)) == Err::<Seq<char>, files::Failure>(e@),
        plan@.path == plan.path@,
        plan@.temp == plan.temp@,
        plan@.parent == (match plan.parent {
            Some(dir) => Some(dir@),
            None => None,
        }),
        files::canonical_bytes(Some(canonical)) == Some(canonical@),
        files::canonical_bytes(None) is None,
{
}

} // verus!
