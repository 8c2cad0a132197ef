//! Text helpers: the characters of a string, building strings back from
//! characters, and the byte offsets of character boundaries in UTF-8.
use vstd::prelude::*;
use vstd::utf8::*;

verus! {

broadcast use vstd::utf8::char_is_scalar;

/// Number of bytes of the UTF-8 encoding of `s`.
pub open spec fn byte_len(s: Seq<char>) -> nat {
    encode_utf8(s).len()
}

/// Byte offset of the character boundary in front of `s[i]` (or of the end, for `i == s.len()`).
pub open spec fn byte_offset(s: Seq<char>, i: int) -> nat {
    byte_len(s.take(i))
}

/// UTF-8 encoding distributes over concatenation.
pub proof fn lemma_encode_utf8_concat(a: Seq<char>, b: Seq<char>)
    ensures
        encode_utf8(a + b) == encode_utf8(a) + encode_utf8(b),
    decreases a.len(),
{
    if a.len() == 0 {
        assert(a + b =~= b);
        assert(encode_utf8(a) =~= Seq::<u8>::empty());
        assert(encode_utf8(a) + encode_utf8(b) =~= encode_utf8(b));
    } else {
        assert((a + b).drop_first() =~= a.drop_first() + b);
        assert((a + b)[0] == a[0]);
        lemma_encode_utf8_concat(a.drop_first(), b);
        assert(encode_utf8(a + b) =~= encode_scalar(a[0] as u32) + (encode_utf8(a.drop_first())
            + encode_utf8(b)));
    }
}

/// The byte offset grows by the width of each character passed.
pub proof fn lemma_byte_offset_step(s: Seq<char>, i: int)
    requires
        0 <= i < s.len(),
    ensures
        byte_offset(s, i + 1) == byte_offset(s, i) + encode_scalar(s[i] as u32).len(),
        byte_offset(s, i + 1) <= byte_len(s),
{
    assert(s.take(i + 1) =~= s.take(i) + seq![s[i]]);
    lemma_encode_utf8_concat(s.take(i), seq![s[i]]);
    let one = seq![s[i]];
    assert(one.drop_first() =~= Seq::<char>::empty());
    assert(encode_utf8(one.drop_first()) =~= Seq::<u8>::empty());
    assert(one[0] == s[i]);
    assert(encode_utf8(one) =~= encode_scalar(s[i] as u32));
    assert(s =~= s.take(i + 1) + s.skip(i + 1));
    lemma_encode_utf8_concat(s.take(i + 1), s.skip(i + 1));
}

/// Byte offsets grow with character indices and stay within the encoding.
pub proof fn lemma_byte_offset_monotone(s: Seq<char>, i: int, j: int)
    requires
        0 <= i <= j <= s.len(),
    ensures
        byte_offset(s, i) <= byte_offset(s, j) <= byte_len(s),
    decreases j - i,
{
    if i < j {
        lemma_byte_offset_step(s, j - 1);
        lemma_byte_offset_monotone(s, i, j - 1);
    } else {
        assert(s =~= s.take(j) + s.skip(j));
        lemma_encode_utf8_concat(s.take(j), s.skip(j));
    }
}

/// The byte offset of every character index is a character boundary of the
/// UTF-8 encoding (what `str::is_char_boundary` answers).
pub proof fn lemma_byte_offset_is_char_boundary(s: Seq<char>, i: int)
    requires
        0 <= i <= s.len(),
    ensures
        is_char_boundary(encode_utf8(s), byte_offset(s, i) as int),
    decreases i,
{
    encode_utf8_valid_utf8(s);
    if i > 0 {
        let t = s.drop_first();
        lemma_byte_offset_is_char_boundary(t, i - 1);
        encode_utf8_first_scalar(s);
        let bytes = encode_utf8(s);
        assert(pop_first_scalar(bytes) =~= encode_utf8(t));
        assert(s.take(i).drop_first() =~= t.take(i - 1));
        assert(s.take(i)[0] == s[0]);
        assert(byte_offset(s, i) == encode_scalar(s[0] as u32).len() + byte_offset(t, i - 1));
        lemma_byte_offset_monotone(s, i, s.len() as int);
        assert(s.take(s.len() as int) =~= s);
    }
}

/// Number of bytes that `c` takes in UTF-8 (what `char::len_utf8` returns).
pub(crate) fn char_width(c: char) -> (w: usize)
    ensures
        w == encode_scalar(c as u32).len(),
        1 <= w <= 4,
{
    let v = c as u32;
    if v < 0x80 {
        1
    } else if v < 0x800 {
        2
    } else if v < 0x10000 {
        3
    } else {
        4
    }
}

/// The byte offset of every character boundary of `chars`, the end included.
pub(crate) fn boundary_indices(chars: &Vec<char>) -> (offsets: Vec<usize>)
    requires
        byte_len(chars@) <= usize::MAX,
    ensures
        offsets.len() == chars.len() + 1,
        forall|i: int| 0 <= i <= chars.len() ==> offsets@[i] == byte_offset(chars@, i),
{
    let mut offsets: Vec<usize> = Vec::new();
    let mut total: usize = 0;
    let mut i: usize = 0;
    assert(chars@.take(0) =~= Seq::<char>::empty());
    while i < chars.len()
        invariant
            i <= chars.len(),
            byte_len(chars@) <= usize::MAX,
            offsets.len() == i,
            total == byte_offset(chars@, i as int),
            forall|j: int| 0 <= j < i ==> offsets@[j] == byte_offset(chars@, j),
        decreases chars.len() - i,
    {
        offsets.push(total);
        proof {
            lemma_byte_offset_step(chars@, i as int);
        }
        total = total + char_width(chars[i]);
        i = i + 1;
    }
    offsets.push(total);
    offsets
}

/// The UTF-8 encoding of a string is its byte slice, whose length is a `usize`.
pub(crate) fn encoding_fits(s: &str)
    ensures
        byte_len(s@) <= usize::MAX,
{
    let bytes = s.as_bytes();
    let n = bytes.len();
    assert(n == bytes@.len());
}

/// The characters of `s`, in order.
pub(crate) fn chars_of(s: &str) -> (v: Vec<char>)
    ensures
        v@ == s@,
{
    let mut v: Vec<char> = Vec::new();
    for c in it: s.chars()
        invariant
            v@ == it.seq().take(it.index() as int),
    {
        v.push(c);
    }
    v
}

/// `String::push`: appends the character `c` to `s`.
#[verifier::external_body]
pub(crate) fn push_char(s: &mut String, c: char)
    ensures
        final(s)@ == old(s)@.push(c),
{
    s.push(c);
}

/// The string made of `chars[from..to]`.
pub(crate) fn string_of_range(chars: &Vec<char>, from: usize, to: usize) -> (s: String)
    requires
        from <= to <= chars.len(),
    ensures
        s@ == chars@.subrange(from as int, to as int),
{
    let mut s = String::new();
    let mut i: usize = from;
    while i < to
        invariant
            from <= i <= to <= chars.len(),
            s@ == chars@.subrange(from as int, i as int),
        decreases to - i,
    {
        push_char(&mut s, chars[i]);
        i = i + 1;
        assert(s@ =~= chars@.subrange(from as int, i as int));
    }
    s
}

/// The string made of all of `chars`.
pub(crate) fn string_of(chars: &Vec<char>) -> (s: String)
    ensures
        s@ == chars@,
{
    let s = string_of_range(chars, 0, chars.len());
    assert(chars@.subrange(0, chars.len() as int) =~= chars@);
    s
}

/// Characters that may start a name: `_` and the ASCII letters.
pub open spec fn identifier_start(c: char) -> bool {
    c == '_' || ('a' <= c && c <= 'z') || ('A' <= c && c <= 'Z')
}

/// Characters that may continue a name: those that may start one, and the ASCII digits.
pub open spec fn identifier_continue(c: char) -> bool {
    identifier_start(c) || ('0' <= c && c <= '9')
}

/// The number of leading characters of `s` that may continue a name.
pub open spec fn identifier_run(s: Seq<char>) -> nat
    decreases s.len(),
{
    if s.len() > 0 && identifier_continue(s[0]) {
        1 + identifier_run(s.drop_first())
    } else {
        0
    }
}

/// The run is a prefix of `s`, and is followed by a character that cannot continue a name.
pub proof fn lemma_identifier_run(s: Seq<char>)
    ensures
        identifier_run(s) <= s.len(),
        forall|i: int| 0 <= i < identifier_run(s) ==> identifier_continue(#[trigger] s[i]),
        identifier_run(s) < s.len() ==> !identifier_continue(s[identifier_run(s) as int]),
    decreases s.len(),
{
    if s.len() > 0 && identifier_continue(s[0]) {
        lemma_identifier_run(s.drop_first());
        assert forall|i: int| 0 <= i < identifier_run(s) implies identifier_continue(#[trigger] s[i]) by {
            if i > 0 {
                assert(s[i] == s.drop_first()[i - 1]);
            }
        }
    }
}

/// A scan that stops at the first character that cannot continue a name measures the run.
pub proof fn lemma_identifier_run_is(s: Seq<char>, m: int)
    requires
        0 <= m <= s.len(),
        forall|k: int| 0 <= k < m ==> identifier_continue(#[trigger] s[k]),
        m < s.len() ==> !identifier_continue(s[m]),
    ensures
        identifier_run(s) == m,
    decreases m,
{
    if m > 0 {
        assert forall|k: int| 0 <= k < m - 1 implies identifier_continue(#[trigger] s.drop_first()[k]) by {
            assert(s.drop_first()[k] == s[k + 1]);
        }
        lemma_identifier_run_is(s.drop_first(), m - 1);
    }
}

/// Whether `value` may start a name.
pub(crate) fn is_identifier_start(value: char) -> (r: bool)
    ensures
        r == identifier_start(value),
{
    value == '_' || ('a' <= value && value <= 'z') || ('A' <= value && value <= 'Z')
}

/// Whether `value` may continue a name.
pub(crate) fn is_identifier_continue(value: char) -> (r: bool)
    ensures
        r == identifier_continue(value),
{
    is_identifier_start(value) || ('0' <= value && value <= '9')
}

} // verus!
