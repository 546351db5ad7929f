//! Laws of texts and byte strings.

use vstd::prelude::*;
use vstd::utf8::*;

use crate::bytes;
use crate::text;

verus! {

/// Whether all of `s` is white space.
pub open spec fn blank(s: Seq<char>) -> bool {
    forall|i: int| 0 <= i < s.len() ==> text::white_space(#[trigger] s[i])
}

/// Whether no white space stands in `s`.
pub open spec fn unbroken(s: Seq<char>) -> bool {
    forall|i: int| 0 <= i < s.len() ==> !text::white_space(#[trigger] s[i])
}

/// Whether `pat` stands in `s` at `i`.
pub open spec fn occurs_at(s: Seq<char>, pat: Seq<char>, i: int) -> bool {
    0 <= i && i + pat.len() <= s.len() && s.subrange(i, i + pat.len()) == pat
}

/// Whether `pat` stands somewhere in `s`.
pub open spec fn occurs(s: Seq<char>, pat: Seq<char>) -> bool {
    exists|i: int| #[trigger] occurs_at(s, pat, i)
}

/// The texts of strings are the strings' characters, one text for each.
pub proof fn texts_are_the_strings(v: Seq<String>, i: int)
    requires
        0 <= i < v.len(),
    ensures
        text::texts(v).len() == v.len(),
        text::texts(v)[i] == v[i]@,
{
}

/// The contents of byte strings are their bytes, one for each.
pub proof fn views_are_the_bytes(v: Seq<Vec<u8>>, i: int)
    requires
        0 <= i < v.len(),
    ensures
        bytes::views(v).len() == v.len(),
        bytes::views(v)[i] == v[i]@,
{
}

/// An optional string has its text, and none has none.
pub proof fn optional_texts(s: &str, t: String)
    ensures
        text::opt(Some(s)) == Some(s@),
        text::opt(None) is None,
        text::opt_owned(Some(t)) == Some(t@),
        text::opt_owned(None) is None,
{
}

/// Bytes that are UTF-8 are shown as the one text that they encode.
pub proof fn utf8_is_shown_as_it_is(b: Seq<u8>)
    requires
        valid_utf8(b),
    ensures
        encode_utf8(bytes::shown(b)) == b,
{
    decode_utf8_encode_utf8(b);
}

/// A separator parts what stands before it from the pieces behind it, and a part without one is one
/// piece.
pub proof fn separators_part<T>(part: Seq<T>, x: T, rest: Seq<T>)
    requires
        !part.contains(x),
    ensures
        text::pieces(part, x) == seq![part],
        text::pieces(part.push(x) + rest, x) == seq![part] + text::pieces(rest, x),
{
    text::lemma_first_at_is(part, x, part.len() as int);
    let whole = part.push(x) + rest;
    text::lemma_first_at_is(whole, x, part.len() as int);
    assert(whole.take(part.len() as int) =~= part);
    assert(whole.skip(part.len() as int + 1) =~= rest);
}

/// Joining puts the separator between neighbours and nowhere else.
pub proof fn joining_adds_one_part<T>(parts: Seq<Seq<T>>, part: Seq<T>, sep: Seq<T>)
    ensures
        text::join(Seq::<Seq<T>>::empty(), sep) == Seq::<T>::empty(),
        text::join(seq![part], sep) == part,
        parts.len() > 0 ==> text::join(parts.push(part), sep) == text::join(parts, sep) + sep
            + part,
{
    assert(parts.push(part).drop_last() =~= parts);
}

/// The front of a joined text stays when a part is added at the front.
pub proof fn joining_adds_one_in_front<T>(part: Seq<T>, parts: Seq<Seq<T>>, sep: Seq<T>)
    requires
        parts.len() > 0,
    ensures
        text::join(seq![part] + parts, sep) == part + sep + text::join(parts, sep),
    decreases parts.len(),
{
    let all = seq![part] + parts;
    if parts.len() == 1 {
        assert(all.drop_last() =~= seq![part]);
        assert(text::join(all.drop_last(), sep) == part);
    } else {
        joining_adds_one_in_front(part, parts.drop_last(), sep);
        assert(all.drop_last() =~= seq![part] + parts.drop_last());
        let front = text::join(parts.drop_last(), sep);
        assert(part + sep + front + sep + parts.last() =~= part + sep + (front + sep
            + parts.last()));
    }
}

/// Trimming takes the white space around a text, and nothing of the text.
pub proof fn trimming_keeps_the_middle(before: Seq<char>, middle: Seq<char>, after: Seq<char>)
    requires
        blank(before),
        blank(after),
        middle.len() > 0 ==> !text::white_space(middle[0]) && !text::white_space(middle.last()),
    ensures
        text::trim_end(middle + after) == middle,
        text::trim_start(before + middle) == middle,
        text::trim(before + middle + after) == middle,
{
    trim_end_of(middle, after);
    trim_start_of(before, middle);
    if middle.len() > 0 {
        trim_end_of(before + middle, after);
    } else {
        let all = before + middle + after;
        assert(blank(all)) by {
            assert forall|i: int| 0 <= i < all.len() implies text::white_space(
                #[trigger] all[i],
            ) by {
                if i < before.len() {
                    assert(all[i] == before[i]);
                } else {
                    assert(all[i] == after[i - before.len()]);
                }
            }
        }
        trim_end_of(Seq::empty(), all);
        assert(Seq::<char>::empty() + all =~= all);
        assert(middle =~= Seq::empty());
    }
}

/// White space behind a text goes.
pub proof fn trim_end_of(s: Seq<char>, after: Seq<char>)
    requires
        blank(after),
        s.len() > 0 ==> !text::white_space(s.last()),
    ensures
        text::trim_end(s + after) == s,
    decreases after.len(),
{
    if after.len() == 0 {
        assert(s + after =~= s);
    } else {
        let front = after.drop_last();
        assert(blank(front)) by {
            assert forall|i: int| 0 <= i < front.len() implies text::white_space(
                #[trigger] front[i],
            ) by {
                assert(front[i] == after[i]);
            }
        }
        assert(text::white_space(after[after.len() - 1]));
        assert((s + after).drop_last() =~= s + front);
        trim_end_of(s, front);
    }
}

/// White space before a text goes.
pub proof fn trim_start_of(before: Seq<char>, s: Seq<char>)
    requires
        blank(before),
        s.len() > 0 ==> !text::white_space(s[0]),
    ensures
        text::trim_start(before + s) == s,
    decreases before.len(),
{
    if before.len() == 0 {
        assert(before + s =~= s);
    } else {
        let back = before.skip(1);
        assert(blank(back)) by {
            assert forall|i: int| 0 <= i < back.len() implies text::white_space(
                #[trigger] back[i],
            ) by {
                assert(back[i] == before[i + 1]);
            }
        }
        assert(text::white_space(before[0]));
        assert((before + s).skip(1) =~= back + s);
        trim_start_of(back, s);
    }
}

/// The words of a text are its first word and the words behind it, and white space has none.
pub proof fn words_are_unbroken_runs(before: Seq<char>, word: Seq<char>, rest: Seq<char>)
    requires
        blank(before),
        unbroken(word),
        word.len() > 0,
        rest.len() > 0 ==> text::white_space(rest[0]),
    ensures
        text::words(before) == Seq::<Seq<char>>::empty(),
        text::words(before + word + rest) == seq![word] + text::words(rest),
{
    trim_start_of(before, Seq::empty());
    assert(before + Seq::<char>::empty() =~= before);
    let tail = word + rest;
    assert(before + word + rest =~= before + tail);
    assert(tail[0] == word[0]);
    trim_start_of(before, tail);
    word_len_of(word, rest);
    assert(tail.take(word.len() as int) =~= word);
    assert(tail.skip(word.len() as int) =~= rest);
}

proof fn word_len_of(word: Seq<char>, rest: Seq<char>)
    requires
        unbroken(word),
        rest.len() > 0 ==> text::white_space(rest[0]),
    ensures
        text::word_len(word + rest) == word.len(),
    decreases word.len(),
{
    if word.len() == 0 {
        assert(word + rest =~= rest);
    } else {
        let back = word.skip(1);
        assert(unbroken(back)) by {
            assert forall|i: int| 0 <= i < back.len() implies !text::white_space(
                #[trigger] back[i],
            ) by {
                assert(back[i] == word[i + 1]);
            }
        }
        assert(!text::white_space(word[0]));
        assert((word + rest).skip(1) =~= back + rest);
        word_len_of(back, rest);
    }
}

/// The lines of a text are its first line, without the line feed or the carriage return and line
/// feed that end it, and the lines behind it. A last line without a line feed is a line as it
/// stands, and an empty text has none.
pub proof fn lines_end_at_line_feeds(line: Seq<char>, rest: Seq<char>)
    requires
        !line.contains('\n'),
    ensures
        text::lines(Seq::empty()) == Seq::<Seq<char>>::empty(),
        line.len() > 0 ==> text::lines(line) == seq![line],
        line.len() == 0 || line.last() != '\r' ==> text::lines(line.push('\n') + rest) == seq![line]
            + text::lines(rest),
        text::lines(line.push('\r').push('\n') + rest) == seq![line] + text::lines(rest),
{
    text::lemma_first_at_is(line, '\n', line.len() as int);
    let whole = line.push('\n') + rest;
    text::lemma_first_at_is(whole, '\n', line.len() as int);
    assert(whole.take(line.len() as int) =~= line);
    assert(whole.skip(line.len() as int + 1) =~= rest);
    let cr = line.push('\r');
    let both = cr.push('\n') + rest;
    assert forall|i: int| 0 <= i < cr.len() implies both[i] != '\n' by {
        if i < line.len() {
            assert(both[i] == line[i]);
        }
    }
    text::lemma_first_at_is(both, '\n', cr.len() as int);
    assert(both.take(cr.len() as int) =~= cr);
    assert(cr.drop_last() =~= line);
    assert(both.skip(cr.len() as int + 1) =~= rest);
}

/// Splitting at a pattern parts what stands before its first occurrence from the pieces of what
/// stands behind it, and a text without an occurrence is one piece.
pub proof fn splitting_parts_at_the_first(s: Seq<char>, pat: Seq<char>, n: int)
    requires
        pat.len() > 0,
    ensures
        !occurs(s, pat) ==> text::split_on(s, pat) == seq![s],
        occurs_at(s, pat, n) && (forall|k: int| 0 <= k < n ==> !occurs_at(s, pat, k))
            ==> text::split_on(s, pat) == seq![s.take(n)] + text::split_on(
            s.skip(n + pat.len()),
            pat,
        ),
{
    text::lemma_first_match(s, pat);
    if let Some(k) = text::first_match(s, pat) {
        assert(occurs_at(s, pat, k as int));
    }
    if occurs_at(s, pat, n) {
        text::lemma_first_match_is_first(s, pat, n);
    }
}

/// Texts are ordered by their first character that differs, and a text stands before those that
/// begin with it.
pub proof fn order_goes_by_the_first_difference(
    same: Seq<char>,
    a: Seq<char>,
    b: Seq<char>,
)
    ensures
        text::ordered(same, same + a),
        a.len() > 0 ==> !text::ordered(same + a, same),
        a.len() > 0 && b.len() > 0 && a[0] != b[0] ==> text::ordered(same + a, same + b) == (a[0]
            < b[0]),
    decreases same.len(),
{
    if same.len() == 0 {
        assert(same + a =~= a);
        assert(same + b =~= b);
    } else {
        let back = same.skip(1);
        order_goes_by_the_first_difference(back, a, b);
        assert((same + a).skip(1) =~= back + a);
        assert((same + b).skip(1) =~= back + b);
    }
}

/// A list with one text more is sorted when it was, and no text before the new one is to stand
/// behind it.
pub proof fn sorting_adds_the_last(v: Seq<Seq<char>>, x: Seq<char>)
    ensures
        text::sorted(Seq::empty()),
        text::sorted(v.push(x)) == (text::sorted(v) && forall|i: int|
            0 <= i < v.len() ==> text::ordered(#[trigger] v[i], x)),
{
    let now = v.push(x);
    if text::sorted(now) {
        assert forall|i: int, j: int| 0 <= i < j < v.len() implies text::ordered(
            #[trigger] v[i],
            #[trigger] v[j],
        ) by {
            assert(now[i] == v[i] && now[j] == v[j]);
        }
        assert forall|i: int| 0 <= i < v.len() implies text::ordered(#[trigger] v[i], x) by {
            assert(now[i] == v[i] && now[v.len() as int] == x);
        }
    }
}

/// Bytes that are no UTF-8 are shown as the one text that stands for them.
pub proof fn other_bytes_are_shown_lossily(b: Seq<u8>)
    requires
        !valid_utf8(b),
    ensures
        bytes::shown(b) == bytes::lossy_text(b),
{
}

} // verus!
