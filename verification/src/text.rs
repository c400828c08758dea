//! Source text: characters, their UTF-8 byte offsets, and slices by byte span.
use vstd::prelude::*;
use vstd::utf8::*;
use vstd::string::StringSliceAdditionalSpecFns;

verus! {

broadcast use {vstd::utf8::char_is_scalar, vstd::utf8::encode_utf8_valid_utf8};

/// The number of bytes that the first `i` characters of `s` take in UTF-8.
pub open spec fn byte_offset(s: Seq<char>, i: int) -> int {
    encode_utf8(s.take(i)).len() as int
}

/// The number of bytes that `s` takes in UTF-8.
pub open spec fn byte_len(s: Seq<char>) -> int {
    encode_utf8(s).len() as int
}

/// Byte offset `b` falls between two characters of `s` (or at either end).
pub open spec fn on_char_boundary(s: Seq<char>, b: int) -> bool {
    exists|i: int| 0 <= i <= s.len() && #[trigger] byte_offset(s, i) == b
}

/// The UTF-8 length of one character.
pub open spec fn char_width(c: char) -> int {
    encode_scalar(c as u32).len() as int
}

/// Encoding a concatenation encodes each part.
pub proof fn lemma_encode_concat(a: Seq<char>, b: Seq<char>)
    ensures
        encode_utf8(a + b) == encode_utf8(a) + encode_utf8(b),
    decreases a.len(),
{
    if a.len() == 0 {
        assert(a + b =~= b);
        assert(encode_utf8(a) =~= Seq::<u8>::empty());
        assert(encode_utf8(a) + encode_utf8(b) =~= encode_utf8(b));
    } else {
        assert((a + b).drop_first() =~= a.drop_first() + b);
        assert((a + b)[0] == a[0]);
        lemma_encode_concat(a.drop_first(), b);
        assert(encode_utf8(a + b) =~= encode_scalar(a[0] as u32) + encode_utf8(a.drop_first() + b));
        assert(encode_utf8(a) + encode_utf8(b) =~= encode_scalar(a[0] as u32) + (encode_utf8(
            a.drop_first(),
        ) + encode_utf8(b)));
    }
}

/// The encoding of a single character.
pub proof fn lemma_encode_single(c: char)
    ensures
        encode_utf8(seq![c]) == encode_scalar(c as u32),
{
    assert(seq![c].drop_first() =~= Seq::<char>::empty());
    assert(encode_utf8(seq![c]) =~= encode_scalar(c as u32) + encode_utf8(Seq::<char>::empty()));
    assert(encode_utf8(Seq::<char>::empty()) =~= Seq::<u8>::empty());
    assert(encode_scalar(c as u32) + Seq::<u8>::empty() =~= encode_scalar(c as u32));
}

/// Every character takes between one and four bytes.
pub proof fn lemma_char_width(c: char)
    ensures
        1 <= char_width(c) <= 4,
        (c as u32) < 0x80 ==> char_width(c) == 1,
        0x80 <= (c as u32) < 0x800 ==> char_width(c) == 2,
        0x800 <= (c as u32) < 0x10000 ==> char_width(c) == 3,
        0x10000 <= (c as u32) ==> char_width(c) == 4,
{
}

/// One more character moves the byte offset by its width.
pub proof fn lemma_offset_step(s: Seq<char>, i: int)
    requires
        0 <= i < s.len(),
    ensures
        byte_offset(s, i + 1) == byte_offset(s, i) + char_width(s[i]),
{
    assert(s.take(i + 1) =~= s.take(i) + seq![s[i]]);
    lemma_encode_concat(s.take(i), seq![s[i]]);
    lemma_encode_single(s[i]);
}

/// The offset of the beginning is zero.
pub proof fn lemma_offset_zero(s: Seq<char>)
    ensures
        byte_offset(s, 0) == 0,
{
    assert(s.take(0) =~= Seq::<char>::empty());
}

/// Byte offsets grow with the character position, up to the length of the whole text.
pub proof fn lemma_offset_mono(s: Seq<char>, i: int, j: int)
    requires
        0 <= i <= j <= s.len(),
    ensures
        byte_offset(s, i) <= byte_offset(s, j) <= byte_len(s),
        i < j ==> byte_offset(s, i) < byte_offset(s, j),
{
    assert(s.take(j) =~= s.take(i) + s.subrange(i, j));
    lemma_encode_concat(s.take(i), s.subrange(i, j));
    assert(s =~= s.take(j) + s.subrange(j, s.len() as int));
    lemma_encode_concat(s.take(j), s.subrange(j, s.len() as int));
    if i < j {
        let m = s.subrange(i, j);
        assert(m.len() > 0);
        assert(encode_utf8(m) =~= encode_scalar(m[0] as u32) + encode_utf8(m.drop_first()));
        lemma_char_width(m[0]);
    }
}

/// The byte offset after all characters is the byte length.
pub proof fn lemma_offset_end(s: Seq<char>)
    ensures
        byte_offset(s, s.len() as int) == byte_len(s),
{
    assert(s.take(s.len() as int) =~= s);
}

/// Every character takes at least a byte: the offset of position `i` is at least `i`.
pub proof fn lemma_offset_at_least(s: Seq<char>, i: int)
    requires
        0 <= i <= s.len(),
    ensures
        i <= byte_offset(s, i),
    decreases i,
{
    if i == 0 {
        lemma_offset_zero(s);
    } else {
        lemma_offset_at_least(s, i - 1);
        lemma_offset_step(s, i - 1);
        lemma_char_width(s[i - 1]);
    }
}

/// A text has no more characters than bytes.
pub proof fn lemma_len_le_bytes(s: Seq<char>)
    ensures
        s.len() <= byte_len(s),
{
    lemma_offset_at_least(s, s.len() as int);
    lemma_offset_end(s);
}

/// Different character positions have different byte offsets.
pub proof fn lemma_offset_injective(s: Seq<char>, i: int, j: int)
    requires
        0 <= i <= s.len(),
        0 <= j <= s.len(),
        byte_offset(s, i) == byte_offset(s, j),
    ensures
        i == j,
{
    if i < j {
        lemma_offset_mono(s, i, j);
    } else if j < i {
        lemma_offset_mono(s, j, i);
    }
}

/// The bytes between two character positions encode the characters between them.
pub proof fn lemma_offset_subrange(s: Seq<char>, i: int, j: int)
    requires
        0 <= i <= j <= s.len(),
    ensures
        encode_utf8(s).subrange(byte_offset(s, i), byte_offset(s, j)) == encode_utf8(
            s.subrange(i, j),
        ),
{
    let a = s.take(i);
    let m = s.subrange(i, j);
    let z = s.subrange(j, s.len() as int);
    assert(s =~= a + (m + z));
    lemma_encode_concat(a, m + z);
    lemma_encode_concat(m, z);
    assert(s.take(j) =~= a + m);
    lemma_encode_concat(a, m);
    assert(encode_utf8(s) =~= encode_utf8(a) + (encode_utf8(m) + encode_utf8(z)));
    assert(encode_utf8(s).subrange(byte_offset(s, i), byte_offset(s, j)) =~= encode_utf8(m));
}

/// The byte offset of a prefix is a character boundary of the encoding.
pub proof fn lemma_offset_is_char_boundary(a: Seq<char>, b: Seq<char>)
    ensures
        is_char_boundary(encode_utf8(a + b), encode_utf8(a).len() as int),
    decreases a.len(),
{
    let bytes = encode_utf8(a + b);
    if a.len() == 0 {
        assert(encode_utf8(a) =~= Seq::<u8>::empty());
    } else {
        let ab = a + b;
        encode_utf8_first_scalar(ab);
        assert(ab[0] == a[0]);
        assert(ab.drop_first() =~= a.drop_first() + b);
        assert(pop_first_scalar(bytes) =~= encode_utf8(a.drop_first() + b));
        lemma_offset_is_char_boundary(a.drop_first(), b);
        assert(encode_utf8(a) =~= encode_scalar(a[0] as u32) + encode_utf8(a.drop_first()));
        lemma_encode_concat(a, b);
        lemma_char_width(a[0]);
    }
}

/// A byte offset of a character position is a character boundary of the encoding.
pub proof fn lemma_boundary(s: Seq<char>, i: int)
    requires
        0 <= i <= s.len(),
    ensures
        is_char_boundary(encode_utf8(s), byte_offset(s, i)),
{
    assert(s =~= s.take(i) + s.subrange(i, s.len() as int));
    lemma_offset_is_char_boundary(s.take(i), s.subrange(i, s.len() as int));
}

/// Encoding is one to one.
pub proof fn lemma_encode_injective(a: Seq<char>, b: Seq<char>)
    requires
        encode_utf8(a) == encode_utf8(b),
    ensures
        a == b,
{
    encode_utf8_decode_utf8(a);
    encode_utf8_decode_utf8(b);
}

/// The UTF-8 length of `c`.
pub fn utf8_width(c: char) -> (r: u32)
    ensures
        r == char_width(c),
        1 <= r <= 4,
{
    proof {
        lemma_char_width(c);
    }
    let v = c as u32;
    if v < 0x80 {
        1
    } else if v < 0x800 {
        2
    } else if v < 0x10000 {
        3
    } else {
        4
    }
}

/// The characters of `s`, in order.
pub(crate) fn chars_of(s: &str) -> (r: Vec<char>)
    ensures
        r@ == s@,
{
    broadcast use vstd::string::group_string_axioms;
    let mut out: Vec<char> = Vec::new();
    for c in it: s.chars()
        invariant
            out@ == it.seq().take(it.index()),
    {
        out.push(c);
    }
    out
}

/// A string of the characters `v`, in order.
#[verifier::external_body]
pub(crate) fn string_of_chars(v: &Vec<char>) -> (r: String)
    ensures
        r@ == v@,
{
    v.iter().collect()
}

/// The part of `s` between the byte offsets `start` and `end`, which must lie on
/// character boundaries, `start` first.
pub fn str_slice<'a>(s: &'a str, start: usize, end: usize) -> (r: &'a str)
    requires
        start <= end,
        on_char_boundary(s@, start as int),
        on_char_boundary(s@, end as int),
    ensures
        r.spec_bytes() == s.spec_bytes().subrange(start as int, end as int),
        forall|i: int, j: int|
            0 <= i <= j <= s@.len() && byte_offset(s@, i) == start && byte_offset(s@, j) == end
                ==> r@ == s@.subrange(i, j),
{
    let ghost t = s@;
    let ghost i = choose|i: int| 0 <= i <= t.len() && #[trigger] byte_offset(t, i) == start;
    let ghost j = choose|j: int| 0 <= j <= t.len() && #[trigger] byte_offset(t, j) == end;
    proof {
        lemma_boundary(t, i);
        if j < i {
            lemma_offset_mono(t, j, i);
        }
    }
    let (_, rest) = s.split_at(start);
    proof {
        let m = t.subrange(i, t.len() as int);
        assert(t =~= t.take(i) + m);
        lemma_encode_concat(t.take(i), m);
        assert(rest.spec_bytes() =~= encode_utf8(m));
        lemma_encode_injective(rest@, m);
        assert(m.take(j - i) =~= t.subrange(i, j));
        assert(t.take(j) =~= t.take(i) + t.subrange(i, j));
        lemma_encode_concat(t.take(i), t.subrange(i, j));
        assert(byte_offset(m, j - i) == end - start);
        lemma_boundary(m, j - i);
    }
    let (r, _) = rest.split_at(end - start);
    proof {
        lemma_offset_subrange(t, i, j);
        assert(r.spec_bytes() =~= s.spec_bytes().subrange(start as int, end as int));
        lemma_encode_injective(r@, t.subrange(i, j));
        assert forall|i2: int, j2: int|
            0 <= i2 <= j2 <= t.len() && byte_offset(t, i2) == start && byte_offset(t, j2) == end
                implies r@ == t.subrange(i2, j2) by {
            lemma_offset_injective(t, i, i2);
            lemma_offset_injective(t, j, j2);
        }
    }
    r
}

} // verus!
