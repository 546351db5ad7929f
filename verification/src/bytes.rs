//! Byte strings, and the text that they hold.

use vstd::prelude::*;
use vstd::utf8::*;

use crate::text;

verus! {

/// The text of `bytes` that are not UTF-8, with U+FFFD in the place of what does not belong.
pub uninterp spec fn lossy_text(bytes: Seq<u8>) -> Seq<char>;

/// The text of `bytes`: what they encode where they are UTF-8, else with U+FFFD in the place of
/// what does not belong.
pub open spec fn shown(bytes: Seq<u8>) -> Seq<char> {
    if valid_utf8(bytes) {
        decode_utf8(bytes)
    } else {
        lossy_text(bytes)
    }
}

/// `String::from_utf8_lossy`: the text that the bytes encode where they are UTF-8, else a text
/// that depends on the bytes alone, with U+FFFD for what is not UTF-8.
#[verifier::external_body]
pub(crate) fn lossy(bytes: &[u8]) -> (r: String)
    ensures
        valid_utf8(bytes@) ==> r@ == decode_utf8(bytes@),
        !valid_utf8(bytes@) ==> r@ == lossy_text(bytes@),
{
    String::from_utf8_lossy(bytes).into_owned()
}

/// The bytes of a text show that text.
pub proof fn shown_of_encoded(s: Seq<char>)
    ensures
        shown(encode_utf8(s)) == s,
{
    encode_utf8_valid_utf8(s);
    encode_utf8_decode_utf8(s);
}

/// The bytes of two texts one after another are the bytes of the whole.
pub proof fn encode_of_concat(a: Seq<char>, b: Seq<char>)
    ensures
        encode_utf8(a + b) == encode_utf8(a) + encode_utf8(b),
    decreases a.len(),
{
    if a.len() == 0 {
        assert(a + b =~= b);
        assert(encode_utf8(a) + encode_utf8(b) =~= encode_utf8(b));
    } else {
        encode_of_concat(a.drop_first(), b);
        assert((a + b).drop_first() =~= a.drop_first() + b);
        assert(encode_utf8(a + b) =~= encode_utf8(a) + encode_utf8(b));
    }
}

/// A slash among the bytes of a text is a slash of the text.
pub proof fn slash_of_encoded(s: Seq<char>, i: int)
    requires
        0 <= i < encode_utf8(s).len(),
        encode_utf8(s)[i] == 47,
    ensures
        s.contains('/'),
{
    let b = encode_utf8(s);
    let tail = b.subrange(i, b.len() as int);
    encode_utf8_valid_utf8(s);
    encode_utf8_decode_utf8(s);
    is_char_boundary_iff_not_is_continuation_byte(b, i);
    valid_utf8_split(b, i);
    decode_utf8_split(b, i);
    assert(47u8 & 0x7f == 47) by (bit_vector);
    assert(tail[0] == 47);
    assert(decode_first_scalar(tail) == 47);
    assert(decode_utf8(tail)[0] == '/');
    let n = decode_utf8(b.subrange(0, i)).len() as int;
    assert(s[n] == '/');
}

/// `std::str::from_utf8`: the text that the bytes encode, when they are UTF-8.
#[verifier::external_body]
pub(crate) fn utf8(bytes: &[u8]) -> (r: Option<String>)
    ensures
        r is Some <==> valid_utf8(bytes@),
        r matches Some(s) ==> s@ == decode_utf8(bytes@),
{
    std::str::from_utf8(bytes).ok().map(|s| s.to_owned())
}

/// The contents of a list of byte strings.
pub open spec fn views(v: Seq<Vec<u8>>) -> Seq<Seq<u8>> {
    v.map_values(|b: Vec<u8>| b@)
}

/// Whether two byte strings are the same.
pub fn same(a: &[u8], b: &[u8]) -> (r: bool)
    ensures
        r == (a@ == b@),
{
    if a.len() != b.len() {
        return false;
    }
    let mut i: usize = 0;
    while i < a.len()
        invariant
            i <= a@.len(),
            a@.len() == b@.len(),
            forall|k: int| 0 <= k < i ==> a@[k] == b@[k],
        decreases a@.len() - i,
    {
        if a[i] != b[i] {
            return false;
        }
        i += 1;
    }
    assert(a@ =~= b@);
    true
}

/// Whether `a` begins with `b`.
pub fn begins_with(a: &[u8], b: &[u8]) -> (r: bool)
    ensures
        r == (b@.len() <= a@.len() && a@.take(b@.len() as int) == b@),
{
    if a.len() < b.len() {
        return false;
    }
    let mut i: usize = 0;
    while i < b.len()
        invariant
            i <= b@.len() <= a@.len(),
            forall|k: int| 0 <= k < i ==> a@[k] == b@[k],
        decreases b@.len() - i,
    {
        if a[i] != b[i] {
            assert(a@.take(b@.len() as int)[i as int] != b@[i as int]);
            return false;
        }
        i += 1;
    }
    assert(a@.take(b@.len() as int) =~= b@);
    true
}

/// The bytes `b[from..to]`.
pub fn slice_of(b: &[u8], from: usize, to: usize) -> (r: Vec<u8>)
    requires
        from <= to <= b@.len(),
    ensures
        r@ == b@.subrange(from as int, to as int),
{
    vstd::slice::slice_to_vec(vstd::slice::slice_subrange(b, from, to))
}

/// `b` appended to `a`.
pub fn append(a: &mut Vec<u8>, b: &[u8])
    ensures
        final(a)@ == old(a)@ + b@,
{
    let mut i: usize = 0;
    assert(a@ =~= old(a)@ + b@.take(0));
    while i < b.len()
        invariant
            i <= b@.len(),
            a@ == old(a)@ + b@.take(i as int),
        decreases b@.len() - i,
    {
        a.push(b[i]);
        i += 1;
        assert(a@ =~= old(a)@ + b@.take(i as int));
    }
    assert(b@.take(i as int) =~= b@);
}

/// The pieces of `b` between the bytes equal to `sep`.
pub fn split(b: &[u8], sep: u8) -> (r: Vec<Vec<u8>>)
    ensures
        views(r@) == text::pieces(b@, sep),
{
    let mut out: Vec<Vec<u8>> = Vec::new();
    let mut from: usize = 0;
    assert(b@.skip(0) =~= b@);
    assert(views(out@) + text::pieces(b@.skip(0), sep) =~= text::pieces(b@, sep));
    loop
        invariant
            from <= b@.len(),
            views(out@) + text::pieces(b@.skip(from as int), sep) == text::pieces(b@, sep),
        decreases b@.len() - from,
    {
        let ghost tail = b@.skip(from as int);
        let ghost before = views(out@);
        let mut i: usize = from;
        while i < b.len() && b[i] != sep
            invariant
                from <= i <= b@.len(),
                forall|k: int| from <= k < i ==> b@[k] != sep,
            decreases b@.len() - i,
        {
            i += 1;
        }
        proof {
            text::lemma_first_at_is(tail, sep, i - from);
        }
        let piece = slice_of(b, from, i);
        out.push(piece);
        assert(views(out@) =~= before.push(piece@));
        if i == b.len() {
            assert(piece@ =~= tail);
            assert(views(out@) =~= before + seq![tail]);
            return out;
        }
        assert(piece@ =~= tail.take(i - from));
        assert(tail.skip(i - from + 1) =~= b@.skip(i + 1));
        from = i + 1;
        assert(views(out@) + text::pieces(b@.skip(from as int), sep) =~= before + (seq![piece@]
            + text::pieces(b@.skip(from as int), sep)));
    }
}

} // verus!
