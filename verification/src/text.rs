//! Text as sequences of characters: trimming, words, lines, joining and matching.

use vstd::prelude::*;

verus! {

/// The characters that Unicode gives the property `White_Space`.
pub open spec fn white_space(c: char) -> bool {
    ||| '\u{9}' <= c <= '\u{d}'
    ||| c == ' '
    ||| c == '\u{85}'
    ||| c == '\u{a0}'
    ||| c == '\u{1680}'
    ||| '\u{2000}' <= c <= '\u{200a}'
    ||| c == '\u{2028}'
    ||| c == '\u{2029}'
    ||| c == '\u{202f}'
    ||| c == '\u{205f}'
    ||| c == '\u{3000}'
}

/// `char::is_whitespace`: whether the character has Unicode's `White_Space` property.
pub assume_specification[ char::is_whitespace ](c: char) -> (r: bool)
    ensures
        r == white_space(c),
;

/// `String::push`: the character is appended at the end, and nothing else changes.
pub assume_specification[ String::push ](s: &mut String, c: char)
    ensures
        final(s)@ == old(s)@.push(c),
;

/// The texts of a list of strings.
pub open spec fn texts(v: Seq<String>) -> Seq<Seq<char>> {
    v.map_values(|s: String| s@)
}

/// The text of a string, when there is one.
pub open spec fn opt(s: Option<&str>) -> Option<Seq<char>> {
    match s {
        Some(s) => Some(s@),
        None => None,
    }
}

/// The text of a string, when there is one.
pub open spec fn opt_owned(s: Option<String>) -> Option<Seq<char>> {
    match s {
        Some(s) => Some(s@),
        None => None,
    }
}

/// How many items of `s` stand before the first `x`; all of them when there is none.
pub open spec fn first_at<T>(s: Seq<T>, x: T) -> nat
    decreases s.len(),
{
    if s.len() == 0 || s[0] == x {
        0
    } else {
        1 + first_at(s.skip(1), x)
    }
}

/// The pieces of `s` between the items equal to `x`; one more than there are such items.
pub open spec fn pieces<T>(s: Seq<T>, x: T) -> Seq<Seq<T>>
    decreases s.len(),
{
    let n = first_at(s, x);
    if n >= s.len() {
        seq![s]
    } else {
        seq![s.take(n as int)] + pieces(s.skip(n as int + 1), x)
    }
}

/// The parts one after another with `sep` between neighbours.
pub open spec fn join<T>(parts: Seq<Seq<T>>, sep: Seq<T>) -> Seq<T>
    decreases parts.len(),
{
    if parts.len() == 0 {
        Seq::empty()
    } else if parts.len() == 1 {
        parts[0]
    } else {
        join(parts.drop_last(), sep) + sep + parts.last()
    }
}

/// `s` without the white space at its start.
pub open spec fn trim_start(s: Seq<char>) -> Seq<char>
    decreases s.len(),
{
    if s.len() > 0 && white_space(s[0]) {
        trim_start(s.skip(1))
    } else {
        s
    }
}

/// `s` without the white space at its end.
pub open spec fn trim_end(s: Seq<char>) -> Seq<char>
    decreases s.len(),
{
    if s.len() > 0 && white_space(s.last()) {
        trim_end(s.drop_last())
    } else {
        s
    }
}

/// `s` without the white space around it.
pub open spec fn trim(s: Seq<char>) -> Seq<char> {
    trim_start(trim_end(s))
}

/// How many characters stand before the first white space of `s`.
pub open spec fn word_len(s: Seq<char>) -> nat
    decreases s.len(),
{
    if s.len() == 0 || white_space(s[0]) {
        0
    } else {
        1 + word_len(s.skip(1))
    }
}

/// The longest runs of `s` without white space, in order.
pub open spec fn words(s: Seq<char>) -> Seq<Seq<char>>
    decreases s.len(),
    via words_decreases
{
    let t = trim_start(s);
    if t.len() == 0 {
        Seq::empty()
    } else {
        seq![t.take(word_len(t) as int)] + words(t.skip(word_len(t) as int))
    }
}

#[via_fn]
proof fn words_decreases(s: Seq<char>) {
    lemma_trim_start_shorter(s);
    let t = trim_start(s);
    if t.len() > 0 {
        lemma_word_len(t);
    }
}

proof fn lemma_trim_start_shorter(s: Seq<char>)
    ensures
        trim_start(s).len() <= s.len(),
        trim_start(s).len() > 0 ==> !white_space(trim_start(s)[0]),
    decreases s.len(),
{
    if s.len() > 0 && white_space(s[0]) {
        lemma_trim_start_shorter(s.skip(1));
    }
}

proof fn lemma_word_len(s: Seq<char>)
    ensures
        word_len(s) <= s.len(),
        s.len() > 0 && !white_space(s[0]) ==> word_len(s) > 0,
    decreases s.len(),
{
    if s.len() > 0 && !white_space(s[0]) {
        lemma_word_len(s.skip(1));
    }
}

/// A line without the carriage return that stands before its line feed.
pub open spec fn strip_cr(line: Seq<char>) -> Seq<char> {
    if line.len() > 0 && line.last() == '\r' {
        line.drop_last()
    } else {
        line
    }
}

/// The lines of `s`: each ends with a line feed, or a carriage return and a line feed, or, the
/// last one, with the text. Neither ending belongs to the line.
pub open spec fn lines(s: Seq<char>) -> Seq<Seq<char>>
    decreases s.len(),
{
    let n = first_at(s, '\n');
    if s.len() == 0 {
        Seq::empty()
    } else if n >= s.len() {
        seq![s]
    } else {
        seq![strip_cr(s.take(n as int))] + lines(s.skip(n as int + 1))
    }
}

/// Where `pat` first occurs in `s`.
pub open spec fn first_match(s: Seq<char>, pat: Seq<char>) -> Option<nat>
    decreases s.len(),
{
    if s.len() < pat.len() {
        None
    } else if s.take(pat.len() as int) == pat {
        Some(0)
    } else if s.len() == 0 {
        None
    } else {
        match first_match(s.skip(1), pat) {
            Some(n) => Some(n + 1),
            None => None,
        }
    }
}

/// The pieces of `s` between the occurrences of `pat`, found from the left without overlap; one
/// more than there are occurrences. (`s` itself when `pat` is empty.)
pub open spec fn split_on(s: Seq<char>, pat: Seq<char>) -> Seq<Seq<char>>
    decreases s.len(),
    via split_on_decreases
{
    match first_match(s, pat) {
        Some(n) if pat.len() > 0 => seq![s.take(n as int)] + split_on(
            s.skip(n as int + pat.len()),
            pat,
        ),
        _ => seq![s],
    }
}

#[via_fn]
proof fn split_on_decreases(s: Seq<char>, pat: Seq<char>) {
    lemma_first_match(s, pat);
}

/// Where a first match is, the pattern stands.
pub proof fn lemma_first_match(s: Seq<char>, pat: Seq<char>)
    ensures
        first_match(s, pat) matches Some(n) ==> {
            &&& n + pat.len() <= s.len()
            &&& s.subrange(n as int, n as int + pat.len()) == pat
        },
    decreases s.len(),
{
    if s.len() < pat.len() {
    } else if s.take(pat.len() as int) == pat {
        assert(s.subrange(0, pat.len() as int) =~= s.take(pat.len() as int));
    } else if s.len() == 0 {
    } else {
        lemma_first_match(s.skip(1), pat);
        if let Some(n) = first_match(s.skip(1), pat) {
            assert(s.subrange(n as int + 1, n as int + 1 + pat.len()) =~= s.skip(1).subrange(
                n as int,
                n as int + pat.len(),
            ));
        }
    }
}

/// No occurrence of the pattern stands before the first match, and none stands anywhere where
/// there is no first match.
pub proof fn lemma_first_match_is_first(s: Seq<char>, pat: Seq<char>, i: int)
    requires
        0 <= i,
        i + pat.len() <= s.len(),
        s.subrange(i, i + pat.len()) == pat,
    ensures
        first_match(s, pat) matches Some(n) && n <= i,
    decreases s.len(),
{
    if s.take(pat.len() as int) == pat {
    } else {
        if i == 0 {
            assert(s.subrange(0, pat.len() as int) =~= s.take(pat.len() as int));
        }
        assert(s.skip(1).subrange(i - 1, i - 1 + pat.len()) =~= s.subrange(i, i + pat.len()));
        lemma_first_match_is_first(s.skip(1), pat, i - 1);
    }
}

/// Where `first_at` points.
pub proof fn lemma_first_at<T>(s: Seq<T>, x: T)
    ensures
        first_at(s, x) <= s.len(),
        first_at(s, x) < s.len() ==> s[first_at(s, x) as int] == x,
        forall|i: int| 0 <= i < first_at(s, x) ==> s[i] != x,
    decreases s.len(),
{
    if s.len() == 0 || s[0] == x {
    } else {
        lemma_first_at(s.skip(1), x);
        assert forall|i: int| 0 <= i < first_at(s, x) implies s[i] != x by {
            if i > 0 {
                assert(s.skip(1)[i - 1] == s[i]);
            }
        }
    }
}

/// `first_at` is the one place with what `lemma_first_at` says.
pub proof fn lemma_first_at_is<T>(s: Seq<T>, x: T, n: int)
    requires
        0 <= n <= s.len(),
        n < s.len() ==> s[n] == x,
        forall|i: int| 0 <= i < n ==> s[i] != x,
    ensures
        first_at(s, x) == n,
{
    lemma_first_at(s, x);
    if first_at(s, x) < n {
        assert(s[first_at(s, x) as int] != x);
    }
}

/// There is always a piece.
pub proof fn lemma_split_nonempty(s: Seq<char>, pat: Seq<char>)
    ensures
        split_on(s, pat).len() > 0,
{
}

/// A text that splits into one piece is that piece.
pub proof fn lemma_split_single(s: Seq<char>, pat: Seq<char>)
    requires
        split_on(s, pat).len() == 1,
    ensures
        split_on(s, pat)[0] == s,
{
    if let Some(n) = first_match(s, pat) {
        if pat.len() > 0 {
            lemma_split_nonempty(s.skip(n as int + pat.len()), pat);
        }
    }
}

proof fn lemma_join_front<T>(first: Seq<T>, rest: Seq<Seq<T>>, sep: Seq<T>)
    requires
        rest.len() > 0,
    ensures
        join(seq![first] + rest, sep) == first + sep + join(rest, sep),
    decreases rest.len(),
{
    let all = seq![first] + rest;
    if rest.len() == 1 {
        assert(all.drop_last() =~= seq![first]);
        assert(join(all.drop_last(), sep) == first);
    } else {
        lemma_join_front(first, rest.drop_last(), sep);
        assert(all.drop_last() =~= seq![first] + rest.drop_last());
        assert(first + sep + join(rest.drop_last(), sep) + sep + rest.last() =~= first + sep + (
        join(rest.drop_last(), sep) + sep + rest.last()));
    }
}

/// The pieces with the pattern between them are the text.
pub proof fn split_joins_back(s: Seq<char>, pat: Seq<char>)
    ensures
        join(split_on(s, pat), pat) == s,
    decreases s.len(),
{
    match first_match(s, pat) {
        Some(n) if pat.len() > 0 => {
            lemma_first_match(s, pat);
            let tail = s.skip(n as int + pat.len());
            split_joins_back(tail, pat);
            lemma_split_nonempty(tail, pat);
            lemma_join_front(s.take(n as int), split_on(tail, pat), pat);
            assert(s.take(n as int) + s.subrange(n as int, n as int + pat.len()) + tail =~= s);
        },
        _ => {},
    }
}

/// The pattern stands in none of the pieces.
pub proof fn split_is_complete(s: Seq<char>, pat: Seq<char>)
    requires
        pat.len() > 0,
    ensures
        forall|i: int|
            0 <= i < split_on(s, pat).len() ==> first_match(#[trigger] split_on(s, pat)[i], pat)
                is None,
    decreases s.len(),
{
    let all = split_on(s, pat);
    match first_match(s, pat) {
        Some(n) => {
            lemma_first_match(s, pat);
            let tail = s.skip(n as int + pat.len());
            split_is_complete(tail, pat);
            let head = s.take(n as int);
            lemma_first_match(head, pat);
            if let Some(k) = first_match(head, pat) {
                assert(head.subrange(k as int, k as int + pat.len()) =~= s.subrange(
                    k as int,
                    k as int + pat.len(),
                ));
                lemma_first_match_is_first(s, pat, k as int);
            }
            assert forall|i: int| 0 <= i < all.len() implies first_match(#[trigger] all[i], pat)
                is None by {
                if i > 0 {
                    assert(all[i] == split_on(tail, pat)[i - 1]);
                }
            }
        },
        None => {},
    }
}

/// The characters of `s`.
pub fn chars_of(s: &str) -> (r: Vec<char>)
    ensures
        r@ == s@,
{
    let mut out: Vec<char> = Vec::new();
    for c in it: s.chars()
        invariant
            out@ == s@.take(it.index() as int),
            it.seq() == s@,
    {
        out.push(c);
        assert(s@.take(it.index() + 1) =~= s@.take(it.index() as int).push(c));
    }
    assert(s@.take(s@.len() as int) =~= s@);
    out
}

/// The string of the characters `cs[from..to]`.
pub fn string_of(cs: &[char], from: usize, to: usize) -> (r: String)
    requires
        from <= to <= cs@.len(),
    ensures
        r@ == cs@.subrange(from as int, to as int),
{
    let mut out = String::new();
    let mut i: usize = from;
    while i < to
        invariant
            from <= i <= to <= cs@.len(),
            out@ == cs@.subrange(from as int, i as int),
        decreases to - i,
    {
        out.push(cs[i]);
        i += 1;
        assert(cs@.subrange(from as int, i as int) =~= cs@.subrange(from as int, i - 1).push(
            cs@[i - 1],
        ));
    }
    out
}

/// Whether two texts are the same.
pub fn same(a: &str, b: &str) -> (r: bool)
    ensures
        r == (a@ == b@),
{
    a.to_owned() == b.to_owned()
}

/// The place of the first `c` in `cs` from `from` on; the length of `cs` when there is none.
pub fn find_char(cs: &[char], from: usize, c: char) -> (r: usize)
    requires
        from <= cs@.len(),
    ensures
        from <= r <= cs@.len(),
        r - from == first_at(cs@.skip(from as int), c),
{
    let mut i: usize = from;
    while i < cs.len() && cs[i] != c
        invariant
            from <= i <= cs@.len(),
            forall|k: int| from <= k < i ==> cs@[k] != c,
        decreases cs@.len() - i,
    {
        i += 1;
    }
    proof {
        lemma_first_at_is(cs@.skip(from as int), c, i - from);
    }
    i
}

/// The lines of `s`, without their endings.
pub fn split_lines(s: &str) -> (r: Vec<String>)
    ensures
        texts(r@) == lines(s@),
{
    let cs = chars_of(s);
    let mut out: Vec<String> = Vec::new();
    let mut i: usize = 0;
    assert(s@.skip(0) =~= s@);
    assert(texts(out@) + lines(s@.skip(0)) =~= lines(s@));
    while i < cs.len()
        invariant
            i <= cs@.len(),
            cs@ == s@,
            texts(out@) + lines(s@.skip(i as int)) == lines(s@),
        decreases cs@.len() - i,
    {
        let ghost tail = s@.skip(i as int);
        let ghost before = texts(out@);
        let j = find_char(cs.as_slice(), i, '\n');
        if j == cs.len() {
            let line = string_of(cs.as_slice(), i, j);
            assert(line@ =~= tail);
            out.push(line);
            i = j;
            assert(s@.skip(i as int) =~= Seq::empty());
            assert(texts(out@) =~= before.push(tail));
            assert(texts(out@) + lines(s@.skip(i as int)) =~= before + seq![tail]);
        } else {
            let end = if j > i && cs[j - 1] == '\r' {
                j - 1
            } else {
                j
            };
            let line = string_of(cs.as_slice(), i, end);
            assert(line@ =~= strip_cr(tail.take(j - i)));
            out.push(line);
            assert(tail.skip(j - i + 1) =~= s@.skip(j + 1));
            i = j + 1;
            assert(texts(out@) =~= before.push(line@));
            assert(texts(out@) + lines(s@.skip(i as int)) =~= before + (seq![line@] + lines(
                s@.skip(i as int),
            )));
        }
    }
    assert(s@.skip(i as int) =~= Seq::empty());
    assert(texts(out@) + lines(s@.skip(i as int)) =~= texts(out@));
    out
}

/// `s` without the white space at its end.
pub fn trimmed_end(s: &str) -> (r: String)
    ensures
        r@ == trim_end(s@),
{
    let cs = chars_of(s);
    let mut n: usize = cs.len();
    assert(s@.take(n as int) =~= s@);
    while n > 0 && cs[n - 1].is_whitespace()
        invariant
            n <= cs@.len(),
            cs@ == s@,
            trim_end(s@.take(n as int)) == trim_end(s@),
        decreases n,
    {
        assert(s@.take(n as int).drop_last() =~= s@.take(n - 1));
        n -= 1;
    }
    assert(cs@.subrange(0, n as int) =~= s@.take(n as int));
    string_of(cs.as_slice(), 0, n)
}

/// `s` without the white space around it.
pub fn trimmed(s: &str) -> (r: String)
    ensures
        r@ == trim(s@),
{
    let short = trimmed_end(s);
    let cs = chars_of(short.as_str());
    let mut i: usize = 0;
    assert(cs@.skip(0) =~= cs@);
    while i < cs.len() && cs[i].is_whitespace()
        invariant
            i <= cs@.len(),
            trim_start(cs@.skip(i as int)) == trim_start(cs@),
        decreases cs@.len() - i,
    {
        assert(cs@.skip(i as int).skip(1) =~= cs@.skip(i + 1));
        i += 1;
    }
    assert(cs@.subrange(i as int, cs@.len() as int) =~= cs@.skip(i as int));
    string_of(cs.as_slice(), i, cs.len())
}

/// The words of `s`: its longest runs without white space.
pub fn split_words(s: &str) -> (r: Vec<String>)
    ensures
        texts(r@) == words(s@),
{
    let cs = chars_of(s);
    let mut out: Vec<String> = Vec::new();
    let mut i: usize = 0;
    assert(s@.skip(0) =~= s@);
    assert(texts(out@) + words(s@.skip(0)) =~= words(s@));
    while i < cs.len()
        invariant
            i <= cs@.len(),
            cs@ == s@,
            texts(out@) + words(s@.skip(i as int)) == words(s@),
        decreases cs@.len() - i,
    {
        let ghost tail = s@.skip(i as int);
        if cs[i].is_whitespace() {
            assert(tail.skip(1) =~= s@.skip(i + 1));
            assert(trim_start(tail) == trim_start(s@.skip(i + 1)));
            assert(words(tail) == words(s@.skip(i + 1)));
            i += 1;
        } else {
            let ghost before = texts(out@);
            let mut j: usize = i;
            assert(tail == s@.skip(j as int));
            while j < cs.len() && !cs[j].is_whitespace()
                invariant
                    i <= j <= cs@.len(),
                    cs@ == s@,
                    word_len(s@.skip(i as int)) == j - i + word_len(s@.skip(j as int)),
                decreases cs@.len() - j,
            {
                assert(s@.skip(j as int).skip(1) =~= s@.skip(j + 1));
                j += 1;
            }
            let word = string_of(cs.as_slice(), i, j);
            assert(trim_start(tail) == tail);
            assert(word_len(tail) == j - i);
            assert(word@ =~= tail.take(j - i));
            assert(tail.skip(j - i) =~= s@.skip(j as int));
            out.push(word);
            assert(j > i) by {
                lemma_word_len(tail);
            }
            i = j;
            assert(texts(out@) =~= before.push(word@));
            assert(texts(out@) + words(s@.skip(i as int)) =~= before + (seq![word@] + words(
                s@.skip(i as int),
            )));
        }
    }
    assert(s@.skip(i as int) =~= Seq::empty());
    assert(texts(out@) + words(s@.skip(i as int)) =~= texts(out@));
    out
}

/// The parts one after another with `sep` between neighbours.
pub fn joined(parts: &Vec<String>, sep: &str) -> (r: String)
    ensures
        r@ == join(texts(parts@), sep@),
{
    let mut out = String::new();
    let mut i: usize = 0;
    assert(texts(parts@).take(0) =~= Seq::empty());
    while i < parts.len()
        invariant
            i <= parts@.len(),
            out@ == join(texts(parts@).take(i as int), sep@),
        decreases parts@.len() - i,
    {
        let ghost all = texts(parts@);
        assert(all.take(i + 1).drop_last() =~= all.take(i as int));
        if i > 0 {
            out.append(sep);
        }
        out.append(parts[i].as_str());
        assert(all.take(i + 1).last() == parts@[i as int]@);
        i += 1;
    }
    assert(texts(parts@).take(i as int) =~= texts(parts@));
    out
}

/// Whether `pat` stands in `cs` at `at`.
fn stands_at(cs: &[char], at: usize, pat: &[char]) -> (r: bool)
    requires
        at + pat@.len() <= cs@.len(),
    ensures
        r == (cs@.subrange(at as int, at + pat@.len()) == pat@),
{
    let mut k: usize = 0;
    assert(cs.len() == cs@.len());
    while k < pat.len()
        invariant
            k <= pat@.len(),
            at + pat@.len() <= cs.len(),
            forall|m: int| 0 <= m < k ==> cs@[at + m] == pat@[m],
        decreases pat@.len() - k,
    {
        if cs[at + k] != pat[k] {
            assert(cs@.subrange(at as int, at + pat@.len())[k as int] != pat@[k as int]);
            return false;
        }
        k += 1;
    }
    assert(cs@.subrange(at as int, at + pat@.len()) =~= pat@);
    true
}

/// Where `pat` first occurs in `cs` from `from` on.
fn find_match(cs: &[char], from: usize, pat: &[char]) -> (r: Option<usize>)
    requires
        from <= cs@.len(),
        pat@.len() > 0,
    ensures
        match (r, first_match(cs@.skip(from as int), pat@)) {
            (Some(at), Some(n)) => at == from + n && at + pat@.len() <= cs.len(),
            (None, None) => true,
            _ => false,
        },
{
    let mut i: usize = from;
    while i < cs.len() && pat.len() <= cs.len() - i
        invariant
            from <= i <= cs@.len(),
            pat@.len() > 0,
            match first_match(cs@.skip(i as int), pat@) {
                Some(n) => first_match(cs@.skip(from as int), pat@) == Some((n + i - from) as nat),
                None => first_match(cs@.skip(from as int), pat@) is None,
            },
        decreases cs@.len() - i,
    {
        let ghost tail = cs@.skip(i as int);
        assert(tail.take(pat@.len() as int) =~= cs@.subrange(i as int, i + pat@.len()));
        if stands_at(cs, i, pat) {
            return Some(i);
        }
        assert(tail.skip(1) =~= cs@.skip(i + 1));
        i += 1;
    }
    None
}

/// The pieces of `s` between the occurrences of `pat`, found from the left without overlap.
pub fn split_at_matches(s: &str, pat: &str) -> (r: Vec<String>)
    requires
        pat@.len() > 0,
    ensures
        texts(r@) == split_on(s@, pat@),
{
    let cs = chars_of(s);
    let ps = chars_of(pat);
    let mut out: Vec<String> = Vec::new();
    let mut i: usize = 0;
    assert(s@.skip(0) =~= s@);
    assert(texts(out@) + split_on(s@.skip(0), pat@) =~= split_on(s@, pat@));
    loop
        invariant
            i <= cs@.len(),
            cs@ == s@,
            ps@ == pat@,
            pat@.len() > 0,
            texts(out@) + split_on(s@.skip(i as int), pat@) == split_on(s@, pat@),
        decreases cs@.len() - i,
    {
        let ghost tail = s@.skip(i as int);
        let ghost before = texts(out@);
        match find_match(cs.as_slice(), i, ps.as_slice()) {
            Some(at) => {
                let piece = string_of(cs.as_slice(), i, at);
                assert(piece@ =~= tail.take(at - i));
                assert(tail.skip(at - i + pat@.len()) =~= s@.skip(at + pat@.len()));
                out.push(piece);
                i = at + ps.len();
                assert(texts(out@) =~= before.push(piece@));
                assert(texts(out@) + split_on(s@.skip(i as int), pat@) =~= before + (seq![piece@]
                    + split_on(s@.skip(i as int), pat@)));
            },
            None => {
                let piece = string_of(cs.as_slice(), i, cs.len());
                assert(piece@ =~= tail);
                out.push(piece);
                assert(texts(out@) =~= before + seq![tail]);
                return out;
            },
        }
    }
}

/// Whether `a` stands before `b` in the order of their characters, or is `b`.
pub open spec fn ordered(a: Seq<char>, b: Seq<char>) -> bool
    decreases a.len(),
{
    if a.len() == 0 {
        true
    } else if b.len() == 0 {
        false
    } else if a[0] != b[0] {
        a[0] < b[0]
    } else {
        ordered(a.skip(1), b.skip(1))
    }
}

/// Whether each text stands before those behind it.
pub open spec fn sorted(v: Seq<Seq<char>>) -> bool {
    forall|i: int, j: int| 0 <= i < j < v.len() ==> ordered(#[trigger] v[i], #[trigger] v[j])
}

proof fn lemma_ordered_total(a: Seq<char>, b: Seq<char>)
    ensures
        ordered(a, b) || ordered(b, a),
    decreases a.len(),
{
    if a.len() > 0 && b.len() > 0 && a[0] == b[0] {
        lemma_ordered_total(a.skip(1), b.skip(1));
    }
}

proof fn lemma_ordered_transitive(a: Seq<char>, b: Seq<char>, c: Seq<char>)
    requires
        ordered(a, b),
        ordered(b, c),
    ensures
        ordered(a, c),
    decreases a.len(),
{
    if a.len() > 0 && b.len() > 0 && c.len() > 0 && a[0] == b[0] && b[0] == c[0] {
        lemma_ordered_transitive(a.skip(1), b.skip(1), c.skip(1));
    }
}

/// Whether `a` stands before `b` in the order of their characters, or is `b`.
pub fn is_ordered(a: &str, b: &str) -> (r: bool)
    ensures
        r == ordered(a@, b@),
{
    let x = chars_of(a);
    let y = chars_of(b);
    let mut i: usize = 0;
    assert(a@.skip(0) =~= a@);
    assert(b@.skip(0) =~= b@);
    while i < x.len() && i < y.len()
        invariant
            i <= x@.len(),
            i <= y@.len(),
            x@ == a@,
            y@ == b@,
            ordered(a@.skip(i as int), b@.skip(i as int)) == ordered(a@, b@),
        decreases x@.len() - i,
    {
        if x[i] != y[i] {
            return x[i] < y[i];
        }
        assert(a@.skip(i as int).skip(1) =~= a@.skip(i + 1));
        assert(b@.skip(i as int).skip(1) =~= b@.skip(i + 1));
        i += 1;
    }
    i == x.len()
}

/// The texts in order.
pub fn sort(v: &Vec<String>) -> (r: Vec<String>)
    ensures
        sorted(texts(r@)),
        texts(r@).to_multiset() == texts(v@).to_multiset(),
{
    let mut out: Vec<String> = Vec::new();
    let ghost all = texts(v@);
    let mut i: usize = 0;
    assert(texts(out@) =~= all.take(0));
    while i < v.len()
        invariant
            i <= v@.len(),
            all == texts(v@),
            sorted(texts(out@)),
            texts(out@).to_multiset() == all.take(i as int).to_multiset(),
        decreases v@.len() - i,
    {
        let one = v[i].clone();
        let ghost done = texts(out@);
        let mut k: usize = 0;
        while k < out.len() && is_ordered(out[k].as_str(), one.as_str())
            invariant
                k <= out@.len(),
                done == texts(out@),
                forall|m: int| 0 <= m < k ==> ordered(#[trigger] done[m], one@),
            decreases out@.len() - k,
        {
            assert(done[k as int] == out@[k as int]@);
            k += 1;
        }
        proof {
            if k < out@.len() {
                assert(done[k as int] == out@[k as int]@);
                lemma_ordered_total(done[k as int], one@);
                assert forall|m: int| k <= m < done.len() implies ordered(one@, #[trigger] done[m])
                    by {
                    if m > k {
                        lemma_ordered_transitive(one@, done[k as int], done[m]);
                    }
                }
            }
        }
        out.insert(k, one);
        proof {
            let now = texts(out@);
            assert(now =~= done.insert(k as int, one@));
            assert forall|a: int, b: int| 0 <= a < b < now.len() implies ordered(
                #[trigger] now[a],
                #[trigger] now[b],
            ) by {
                let a0 = if a < k {
                    a
                } else {
                    a - 1
                };
                let b0 = if b < k {
                    b
                } else {
                    b - 1
                };
                if a != k {
                    assert(now[a] == done[a0]);
                }
                if b != k {
                    assert(now[b] == done[b0]);
                }
            }
            vstd::seq_lib::to_multiset_insert(done, k as int, one@);
            vstd::seq_lib::to_multiset_build(all.take(i as int), all[i as int]);
            assert(all[i as int] == one@);
            assert(all.take(i + 1) =~= all.take(i as int).push(one@));
        }
        i += 1;
    }
    assert(all.take(i as int) =~= all);
    out
}

} // verus!
