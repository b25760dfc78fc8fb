//! Text by byte offsets: every offset counts bytes of the UTF-8 form, and text is only ever
//! parted between characters.

use vstd::prelude::*;
use vstd::utf8::{
    decode_utf8, decode_utf8_split, encode_utf8, encode_utf8_decode_utf8, encode_utf8_valid_utf8,
    decode_utf8_encode_utf8, is_char_boundary, is_char_boundary_iff_not_is_continuation_byte,
    is_char_boundary_start_end_of_seq, valid_utf8_split,
};

verus! {

/// How many bytes a text takes.
pub open spec fn size(s: Seq<char>) -> nat {
    encode_utf8(s).len()
}

/// An offset lies between characters of the text, or at one of its ends.
pub open spec fn between_chars(s: Seq<char>, i: int) -> bool {
    is_char_boundary(encode_utf8(s), i)
}

/// The part of a text from one offset up to another.
pub open spec fn part(s: Seq<char>, i: int, j: int) -> Seq<char> {
    decode_utf8(encode_utf8(s).subrange(i, j))
}

/// The part of a text before an offset.
pub open spec fn before(s: Seq<char>, i: int) -> Seq<char> {
    part(s, 0, i)
}

/// The part of a text from an offset on.
pub open spec fn after(s: Seq<char>, i: int) -> Seq<char> {
    part(s, i, size(s) as int)
}

/// A text without the part from one offset up to another.
pub open spec fn without(s: Seq<char>, i: int, j: int) -> Seq<char> {
    before(s, i) + after(s, j)
}

/// A text with another one put in at an offset.
pub open spec fn with(s: Seq<char>, i: int, t: Seq<char>) -> Seq<char> {
    before(s, i) + t + after(s, i)
}

/// The first offset between characters behind another offset.
pub open spec fn next_between(s: Seq<char>, i: int) -> int
    decreases size(s) - i,
{
    if i + 1 >= size(s) || between_chars(s, i + 1) {
        i + 1
    } else {
        next_between(s, i + 1)
    }
}

/// The bytes of two texts in a row are their bytes in a row.
pub proof fn lemma_encode_add(a: Seq<char>, b: Seq<char>)
    ensures
        encode_utf8(a + b) == encode_utf8(a) + encode_utf8(b),
        size(a + b) == size(a) + size(b),
    decreases a.len(),
{
    if a.len() == 0 {
        assert(a + b =~= b);
        assert(encode_utf8(a) + encode_utf8(b) =~= encode_utf8(b));
    } else {
        lemma_encode_add(a.drop_first(), b);
        assert((a + b).drop_first() =~= a.drop_first() + b);
        assert(encode_utf8(a + b) =~= encode_utf8(a) + encode_utf8(b));
    }
}

/// Texts with the same bytes are the same.
pub proof fn lemma_encode_injective(a: Seq<char>, b: Seq<char>)
    requires
        encode_utf8(a) == encode_utf8(b),
    ensures
        a == b,
{
    encode_utf8_decode_utf8(a);
    encode_utf8_decode_utf8(b);
}

/// An offset between characters lies within the text.
pub proof fn lemma_between_bound(s: Seq<char>, i: int)
    requires
        between_chars(s, i),
    ensures
        0 <= i <= size(s),
{
    encode_utf8_valid_utf8(s);
}

/// The ends of a text lie between characters.
pub proof fn lemma_ends(s: Seq<char>)
    ensures
        between_chars(s, 0),
        between_chars(s, size(s) as int),
{
    encode_utf8_valid_utf8(s);
    is_char_boundary_start_end_of_seq(encode_utf8(s));
}

/// A text parted at an offset between characters.
pub proof fn lemma_parted(s: Seq<char>, i: int)
    requires
        between_chars(s, i),
    ensures
        0 <= i <= size(s),
        s == before(s, i) + after(s, i),
        encode_utf8(before(s, i)) == encode_utf8(s).subrange(0, i),
        encode_utf8(after(s, i)) == encode_utf8(s).subrange(i, size(s) as int),
        size(before(s, i)) == i,
        size(after(s, i)) == size(s) - i,
{
    let b = encode_utf8(s);
    encode_utf8_valid_utf8(s);
    encode_utf8_decode_utf8(s);
    lemma_between_bound(s, i);
    valid_utf8_split(b, i);
    decode_utf8_split(b, i);
    decode_utf8_encode_utf8(b.subrange(0, i));
    decode_utf8_encode_utf8(b.subrange(i, b.len() as int));
}

/// Two offsets between characters part a text in three.
pub proof fn lemma_parted_twice(s: Seq<char>, i: int, j: int)
    requires
        between_chars(s, i),
        between_chars(s, j),
        i <= j,
    ensures
        0 <= i <= j <= size(s),
        between_chars(before(s, j), i),
        before(before(s, j), i) == before(s, i),
        after(before(s, j), i) == part(s, i, j),
        encode_utf8(part(s, i, j)) == encode_utf8(s).subrange(i, j),
        s == before(s, i) + part(s, i, j) + after(s, j),
        size(part(s, i, j)) == j - i,
{
    let b = encode_utf8(s);
    let head = before(s, j);
    encode_utf8_valid_utf8(s);
    encode_utf8_valid_utf8(head);
    lemma_parted(s, i);
    lemma_parted(s, j);
    if i < j {
        assert(encode_utf8(head)[i] == b[i]);
        is_char_boundary_iff_not_is_continuation_byte(b, i);
        is_char_boundary_iff_not_is_continuation_byte(encode_utf8(head), i);
    } else {
        lemma_ends(head);
    }
    lemma_parted(head, i);
    assert(encode_utf8(head).subrange(0, i) =~= b.subrange(0, i));
    assert(encode_utf8(head).subrange(i, j) =~= b.subrange(i, j));
}

/// The next offset between characters is one.
pub proof fn lemma_next_between(s: Seq<char>, i: int)
    requires
        0 <= i < size(s),
    ensures
        i < next_between(s, i) <= size(s),
        between_chars(s, next_between(s, i)),
        forall|k: int| i < k < next_between(s, i) ==> !between_chars(s, k),
    decreases size(s) - i,
{
    lemma_ends(s);
    if i + 1 < size(s) && !between_chars(s, i + 1) {
        lemma_next_between(s, i + 1);
    }
}

/// Putting a text in and taking it out again gives the text back.
pub proof fn lemma_with_without(s: Seq<char>, i: int, t: Seq<char>)
    requires
        between_chars(s, i),
    ensures
        between_chars(with(s, i, t), i),
        between_chars(with(s, i, t), i + size(t)),
        part(with(s, i, t), i, i + size(t)) == t,
        without(with(s, i, t), i, i + size(t)) == s,
        size(with(s, i, t)) == size(s) + size(t),
{
    lemma_parted(s, i);
    lemma_concat_boundary(before(s, i), t + after(s, i));
    lemma_concat_boundary(before(s, i) + t, after(s, i));
    lemma_encode_add(before(s, i), t);
    lemma_encode_add(before(s, i) + t, after(s, i));
    assert(with(s, i, t) =~= before(s, i) + (t + after(s, i)));
    let w = with(s, i, t);
    lemma_parted_twice(w, i, i + size(t));
    assert(encode_utf8(w).subrange(i, i + size(t)) =~= encode_utf8(t));
    lemma_encode_injective(part(w, i, i + size(t)), t);
}

/// What is left once a part is taken out.
pub proof fn lemma_without_size(s: Seq<char>, i: int, j: int)
    requires
        between_chars(s, i),
        between_chars(s, j),
    ensures
        size(without(s, i, j)) == i + size(s) - j,
        between_chars(without(s, i, j), i),
{
    lemma_parted(s, i);
    lemma_parted(s, j);
    lemma_encode_add(before(s, i), after(s, j));
    lemma_concat_boundary(before(s, i), after(s, j));
}

/// Two texts in a row are parted between them.
pub proof fn lemma_concat_boundary(a: Seq<char>, b: Seq<char>)
    ensures
        between_chars(a + b, size(a) as int),
        before(a + b, size(a) as int) == a,
        after(a + b, size(a) as int) == b,
    decreases a.len(),
{
    lemma_encode_add(a, b);
    encode_utf8_valid_utf8(a);
    encode_utf8_valid_utf8(b);
    encode_utf8_valid_utf8(a + b);
    encode_utf8_decode_utf8(a);
    encode_utf8_decode_utf8(b);
    let n = size(a) as int;
    assert(encode_utf8(a + b).subrange(0, n) =~= encode_utf8(a));
    assert(encode_utf8(a + b).subrange(n, size(a + b) as int) =~= encode_utf8(b));
    if b.len() == 0 {
        assert(a + b =~= a);
        lemma_ends(a);
    } else {
        lemma_first_byte(b);
        is_char_boundary_iff_not_is_continuation_byte(encode_utf8(a + b), n);
        assert(encode_utf8(a + b)[n] == encode_utf8(b)[0]);
    }
}

proof fn lemma_first_byte(b: Seq<char>)
    requires
        b.len() > 0,
    ensures
        size(b) > 0,
        !vstd::utf8::is_continuation_byte(encode_utf8(b)[0]),
{
    encode_utf8_valid_utf8(b);
    lemma_ends(b);
    assert(encode_utf8(b).len() > 0);
    is_char_boundary_iff_not_is_continuation_byte(encode_utf8(b), 0);
}

/// How many bytes a text takes.
pub fn len(s: &str) -> (r: usize)
    ensures
        r == size(s@),
{
    s.as_bytes().len()
}

/// The part of a text before an offset.
pub fn head(s: &str, i: usize) -> (r: &str)
    requires
        between_chars(s@, i as int),
    ensures
        r@ == before(s@, i as int),
{
    let (a, _) = s.split_at(i);
    proof {
        lemma_parted(s@, i as int);
        lemma_encode_injective(a@, before(s@, i as int));
    }
    a
}

/// The part of a text from an offset on.
pub fn tail(s: &str, i: usize) -> (r: &str)
    requires
        between_chars(s@, i as int),
    ensures
        r@ == after(s@, i as int),
{
    let (_, b) = s.split_at(i);
    proof {
        lemma_parted(s@, i as int);
        lemma_encode_injective(b@, after(s@, i as int));
    }
    b
}

/// The part of a text from one offset up to another.
pub fn middle(s: &str, i: usize, j: usize) -> (r: &str)
    requires
        between_chars(s@, i as int),
        between_chars(s@, j as int),
        i <= j,
    ensures
        r@ == part(s@, i as int, j as int),
{
    proof {
        lemma_parted_twice(s@, i as int, j as int);
    }
    tail(head(s, j), i)
}

/// A text without the part from one offset up to another.
pub fn remove_range(s: &str, i: usize, j: usize) -> (r: String)
    requires
        between_chars(s@, i as int),
        between_chars(s@, j as int),
    ensures
        r@ == without(s@, i as int, j as int),
{
    String::from_str(head(s, i)).concat(tail(s, j))
}

/// A text with another one put in at an offset.
pub fn insert_text(s: &str, i: usize, t: &str) -> (r: String)
    requires
        between_chars(s@, i as int),
    ensures
        r@ == with(s@, i as int, t@),
{
    String::from_str(head(s, i)).concat(t).concat(tail(s, i))
}

/// A text without the character at an offset.
pub fn remove_char(s: &str, i: usize) -> (r: String)
    requires
        between_chars(s@, i as int),
        i < size(s@),
    ensures
        r@ == without(s@, i as int, next_between(s@, i as int)),
{
    let n = len(s);
    let mut j: usize = i + 1;
    while j < n && !s.is_char_boundary(j)
        invariant
            i < j <= n,
            n == size(s@),
            next_between(s@, i as int) == next_between(s@, j - 1),
        decreases n - j,
    {
        j += 1;
    }
    proof {
        lemma_next_between(s@, i as int);
    }
    remove_range(s, i, j)
}

} // verus!
