//! Text as sequences of characters: white space, trimming, splitting and
//! searching, each proved against a model on `Seq<char>`.

use vstd::prelude::*;
use vstd::utf8::is_ascii_chars;

verus! {

/// The characters of every string of a list.
pub open spec fn texts(list: Seq<String>) -> Seq<Seq<char>> {
    list.map_values(|s: String| s@)
}

/// Adds a text to a list.
pub fn add_text(list: &mut Vec<String>, text: String)
    ensures
        texts(final(list)@) == texts(old(list)@).push(text@),
{
    list.push(text);
    assert(texts(list@) =~= texts(old(list)@).push(text@));
}

/// A text that may be missing.
pub open spec fn optional(text: Option<String>) -> Option<Seq<char>> {
    match text {
        Some(text) => Some(text@),
        None => None,
    }
}

/// The Unicode `White_Space` property.
pub open spec fn is_white_space(c: char) -> bool {
    ||| '\u{9}' <= c <= '\u{d}'
    ||| c == ' '
    ||| c == '\u{85}'
    ||| c == '\u{a0}'
    ||| c == '\u{1680}'
    ||| '\u{2000}' <= c <= '\u{200a}'
    ||| c == '\u{2028}'
    ||| c == '\u{2029}'
    ||| c == '\u{202f}'
    ||| c == '\u{205f}'
    ||| c == '\u{3000}'
}

/// Tells whether a character is white space.
pub fn is_whitespace(c: char) -> (r: bool)
    ensures
        r == is_white_space(c),
{
    ('\u{9}' <= c && c <= '\u{d}') || c == ' ' || c == '\u{85}' || c == '\u{a0}' || c == '\u{1680}'
        || ('\u{2000}' <= c && c <= '\u{200a}') || c == '\u{2028}' || c == '\u{2029}' || c
        == '\u{202f}' || c == '\u{205f}' || c == '\u{3000}'
}

/// `String::push` appends one character.
pub assume_specification[ String::push ](s: &mut String, ch: char)
    ensures
        final(s)@ == old(s)@.push(ch),
;

/// What `str::to_lowercase` makes of a text that is not all ASCII.
pub uninterp spec fn unicode_lowercase(s: Seq<char>) -> Seq<char>;

/// The lower case of an ASCII letter; any other character stays.
pub open spec fn ascii_lower(c: char) -> char {
    if 'A' <= c <= 'Z' {
        (c as u8 + 32) as char
    } else {
        c
    }
}

/// The lower case of a text.
pub open spec fn lower(s: Seq<char>) -> Seq<char> {
    if is_ascii_chars(s) {
        s.map_values(|c: char| ascii_lower(c))
    } else {
        unicode_lowercase(s)
    }
}

/// An ASCII character that has no case: any but a letter.
pub open spec fn is_caseless(c: char) -> bool {
    c <= '\u{7f}' && !('A' <= c <= 'Z') && !('a' <= c <= 'z')
}

/// `low` has not lost what has no case in `s`: it is empty only if `s` is, it holds every ASCII
/// character without case that `s` holds, and it starts with the one that `s` starts with.
pub open spec fn keeps_caseless(s: Seq<char>, low: Seq<char>) -> bool {
    &&& s.len() > 0 ==> low.len() > 0
    &&& s.len() > 0 && is_caseless(s[0]) ==> low[0] == s[0]
    &&& forall|c: char| is_caseless(c) && #[trigger] s.contains(c) ==> low.contains(c)
}

/// `str::to_lowercase` turns the letters `A` to `Z` of an ASCII text into `a` to `z` and keeps
/// the rest of it. What it makes of any other text depends on that text alone and has a name
/// here. Of every text it keeps the characters that have no case, and each of the others turns
/// into one or more characters. Which characters the others turn into is left unsaid.
pub assume_specification[ str::to_lowercase ](s: &str) -> (r: String)
    ensures
        is_ascii_chars(s@) ==> r@ == s@.map_values(|c: char| ascii_lower(c)),
        !is_ascii_chars(s@) ==> r@ == unicode_lowercase(s@),
        keeps_caseless(s@, r@),
;

/// The lower case of a text, as characters.
pub fn to_lower(s: &Vec<char>) -> (r: Vec<char>)
    ensures
        r@ == lower(s@),
        keeps_caseless(s@, r@),
{
    to_chars(from_chars(s).to_lowercase().as_str())
}

/// The characters of a string.
pub fn to_chars(s: &str) -> (r: Vec<char>)
    ensures
        r@ == s@,
{
    let mut r: Vec<char> = Vec::new();
    for c in it: s.chars()
        invariant
            it.seq() == s@,
            r@ == s@.take(it.index()),
    {
        r.push(c);
    }
    r
}

/// The characters from `from` up to `to`, as a string.
pub fn slice(chars: &Vec<char>, from: usize, to: usize) -> (r: String)
    requires
        from <= to <= chars@.len(),
    ensures
        r@ == chars@.subrange(from as int, to as int),
{
    let mut r = String::new();
    let mut i: usize = from;
    while i < to
        invariant
            from <= i <= to <= chars@.len(),
            r@ == chars@.subrange(from as int, i as int),
        decreases to - i,
    {
        r.push(chars[i]);
        i += 1;
    }
    r
}

/// All the characters, as a string.
pub fn from_chars(chars: &Vec<char>) -> (r: String)
    ensures
        r@ == chars@,
{
    let r = slice(chars, 0, chars.len());
    assert(chars@.subrange(0, chars@.len() as int) =~= chars@);
    r
}

/// A set of characters that text is trimmed of.
#[derive(Clone, Copy)]
pub enum CharClass {
    /// Every white space character.
    WhiteSpace,
    /// One character alone.
    Only(char),
}

impl CharClass {
    /// Membership in the class.
    pub open spec fn has(self, c: char) -> bool {
        match self {
            CharClass::WhiteSpace => is_white_space(c),
            CharClass::Only(only) => c == only,
        }
    }

    /// Tells whether the class has a character.
    pub fn contains(self, c: char) -> (r: bool)
        ensures
            r == self.has(c),
    {
        match self {
            CharClass::WhiteSpace => is_whitespace(c),
            CharClass::Only(only) => c == only,
        }
    }
}

/// `s` without its leading characters of a class.
pub open spec fn strip_front(s: Seq<char>, class: CharClass) -> Seq<char>
    decreases s.len(),
{
    if s.len() > 0 && class.has(s[0]) {
        strip_front(s.drop_first(), class)
    } else {
        s
    }
}

/// `s` without its trailing characters of a class.
pub open spec fn strip_back(s: Seq<char>, class: CharClass) -> Seq<char>
    decreases s.len(),
{
    if s.len() > 0 && class.has(s.last()) {
        strip_back(s.drop_last(), class)
    } else {
        s
    }
}

/// `s` without its leading and trailing characters of a class.
pub open spec fn strip(s: Seq<char>, class: CharClass) -> Seq<char> {
    strip_back(strip_front(s, class), class)
}

/// Where the text starts once its leading characters of a class are gone.
pub fn skip_front(s: &Vec<char>, class: CharClass) -> (r: usize)
    ensures
        r <= s@.len(),
        strip_front(s@, class) == s@.skip(r as int),
{
    let mut i: usize = 0;
    assert(s@.skip(0) =~= s@);
    while i < s.len() && class.contains(s[i])
        invariant
            i <= s@.len(),
            strip_front(s@, class) == strip_front(s@.skip(i as int), class),
        decreases s@.len() - i,
    {
        assert(s@.skip(i as int).drop_first() =~= s@.skip(i + 1));
        i += 1;
    }
    i
}

/// Where the text from `from` on ends once its trailing characters of a class are gone.
pub fn skip_back(s: &Vec<char>, from: usize, class: CharClass) -> (r: usize)
    requires
        from <= s@.len(),
    ensures
        from <= r <= s@.len(),
        strip_back(s@.skip(from as int), class) == s@.subrange(from as int, r as int),
{
    let mut i: usize = s.len();
    assert(s@.skip(from as int) =~= s@.subrange(from as int, i as int));
    while i > from && class.contains(s[i - 1])
        invariant
            from <= i <= s@.len(),
            strip_back(s@.skip(from as int), class) == strip_back(
                s@.subrange(from as int, i as int),
                class,
            ),
        decreases i,
    {
        assert(s@.subrange(from as int, i as int).drop_last() =~= s@.subrange(
            from as int,
            i - 1,
        ));
        i -= 1;
    }
    i
}

/// Removes the leading characters of a class.
pub fn trim_front(s: &Vec<char>, class: CharClass) -> (r: Vec<char>)
    ensures
        r@ == strip_front(s@, class),
{
    let from = skip_front(s, class);
    subvec(s, from, s.len())
}

/// Removes the leading and trailing characters of a class.
pub fn trim(s: &Vec<char>, class: CharClass) -> (r: Vec<char>)
    ensures
        r@ == strip(s@, class),
{
    let from = skip_front(s, class);
    let to = skip_back(s, from, class);
    subvec(s, from, to)
}

/// The characters from `from` up to `to`.
pub fn subvec(s: &Vec<char>, from: usize, to: usize) -> (r: Vec<char>)
    requires
        from <= to <= s@.len(),
    ensures
        r@ == s@.subrange(from as int, to as int),
{
    let mut r: Vec<char> = Vec::new();
    let mut i: usize = from;
    while i < to
        invariant
            from <= i <= to <= s@.len(),
            r@ == s@.subrange(from as int, i as int),
        decreases to - i,
    {
        r.push(s[i]);
        i += 1;
    }
    r
}

/// `needle` stands in `hay` at position `at`.
pub open spec fn occurs_at(hay: Seq<char>, needle: Seq<char>, at: int) -> bool {
    &&& 0 <= at
    &&& at + needle.len() <= hay.len()
    &&& hay.subrange(at, at + needle.len()) == needle
}

/// `needle` stands somewhere in `hay`.
pub open spec fn occurs(hay: Seq<char>, needle: Seq<char>) -> bool {
    exists|at: int| occurs_at(hay, needle, at)
}

/// Tells whether `needle` stands in `hay` at position `at`.
pub fn found_at(hay: &Vec<char>, needle: &Vec<char>, at: usize) -> (r: bool)
    ensures
        r == occurs_at(hay@, needle@, at as int),
{
    if at > hay.len() || needle.len() > hay.len() - at {
        return false;
    }
    let mut i: usize = 0;
    while i < needle.len()
        invariant
            i <= needle@.len(),
            at + needle@.len() <= hay.len(),
            forall|k: int| 0 <= k < i ==> hay@[at + k] == needle@[k],
        decreases needle@.len() - i,
    {
        if hay[at + i] != needle[i] {
            assert(hay@.subrange(at as int, at + needle@.len())[i as int] != needle@[i as int]);
            return false;
        }
        i += 1;
    }
    assert(hay@.subrange(at as int, at + needle@.len()) =~= needle@);
    true
}

/// Tells whether `needle` stands somewhere in `hay`.
pub fn contains(hay: &Vec<char>, needle: &Vec<char>) -> (r: bool)
    ensures
        r == occurs(hay@, needle@),
{
    if needle.len() > hay.len() {
        return false;
    }
    let last = hay.len() - needle.len();
    let mut at: usize = 0;
    while at < last
        invariant
            at <= last == hay@.len() - needle@.len(),
            forall|k: int| 0 <= k < at ==> !occurs_at(hay@, needle@, k),
        decreases last - at,
    {
        if found_at(hay, needle, at) {
            return true;
        }
        at += 1;
    }
    found_at(hay, needle, last)
}

/// Tells whether a character stands in the text.
pub fn has_char(s: &Vec<char>, c: char) -> (r: bool)
    ensures
        r == s@.contains(c),
{
    let mut i: usize = 0;
    while i < s.len()
        invariant
            i <= s@.len(),
            forall|k: int| 0 <= k < i ==> s@[k] != c,
        decreases s@.len() - i,
    {
        if s[i] == c {
            return true;
        }
        i += 1;
    }
    false
}

/// Tells whether the text starts with a prefix.
pub fn starts_with(s: &Vec<char>, prefix: &Vec<char>) -> (r: bool)
    ensures
        r == prefix@.is_prefix_of(s@),
{
    found_at(s, prefix, 0)
}

/// Tells whether the text ends with a suffix.
pub fn ends_with(s: &Vec<char>, suffix: &Vec<char>) -> (r: bool)
    ensures
        r == suffix@.is_suffix_of(s@),
{
    if suffix.len() > s.len() {
        return false;
    }
    found_at(s, suffix, s.len() - suffix.len())
}

/// Tells whether two texts are the same.
pub fn same(a: &Vec<char>, b: &Vec<char>) -> (r: bool)
    ensures
        r == (a@ == b@),
{
    if a.len() != b.len() {
        return false;
    }
    let r = found_at(a, b, 0);
    assert(a@.subrange(0, a@.len() as int) =~= a@);
    r
}

/// `s` with every `from` turned into `to`.
pub open spec fn replaced(s: Seq<char>, from: char, to: char) -> Seq<char> {
    s.map_values(|c: char| if c == from { to } else { c })
}

/// Turns every `from` into `to`.
pub fn replace(s: &Vec<char>, from: char, to: char) -> (r: Vec<char>)
    ensures
        r@ == replaced(s@, from, to),
{
    let mut r: Vec<char> = Vec::new();
    let mut i: usize = 0;
    while i < s.len()
        invariant
            i <= s@.len(),
            r@ == replaced(s@.take(i as int), from, to),
        decreases s@.len() - i,
    {
        r.push(if s[i] == from { to } else { s[i] });
        i += 1;
        assert(s@.take(i as int) =~= s@.take(i - 1).push(s@[i - 1]));
    }
    assert(s@.take(i as int) =~= s@);
    r
}

/// The words of a text: its longest runs without white space, in order.
///
/// A character after white space begins a word, any other one extends the last word.
pub open spec fn words(s: Seq<char>) -> Seq<Seq<char>>
    decreases s.len(),
{
    if s.len() == 0 {
        seq![]
    } else if is_white_space(s.last()) {
        words(s.drop_last())
    } else if s.len() == 1 || is_white_space(s[s.len() - 2]) {
        words(s.drop_last()).push(seq![s.last()])
    } else {
        let before = words(s.drop_last());
        before.drop_last().push(before.last().push(s.last()))
    }
}

/// Splits a text into its words.
pub fn split_whitespace(s: &Vec<char>) -> (r: Vec<Vec<char>>)
    ensures
        r@.map_values(|w: Vec<char>| w@) == words(s@),
{
    let mut done: Vec<Vec<char>> = Vec::new();
    let mut open: Vec<char> = Vec::new();
    let mut i: usize = 0;
    let ghost view = |w: Vec<char>| w@;
    while i < s.len()
        invariant
            i <= s@.len(),
            view == (|w: Vec<char>| w@),
            open@.len() > 0 <==> i > 0 && !is_white_space(s@[i - 1]),
            words(s@.take(i as int)) == if open@.len() > 0 {
                done@.map_values(view).push(open@)
            } else {
                done@.map_values(view)
            },
        decreases s@.len() - i,
    {
        let c = s[i];
        assert(s@.take(i + 1).drop_last() =~= s@.take(i as int));
        if is_whitespace(c) {
            if open.len() > 0 {
                let ghost done0 = done@;
                done.push(open);
                open = Vec::new();
                assert(done@.map_values(view) =~= done0.map_values(view).push(done@.last()@));
            }
        } else {
            assert(done@.map_values(view).push(open@).drop_last() =~= done@.map_values(view));
            open.push(c);
            assert(open@.len() == 1 ==> open@ =~= seq![c]);
        }
        i += 1;
    }
    assert(s@.take(i as int) =~= s@);
    if open.len() > 0 {
        let ghost done0 = done@;
        done.push(open);
        assert(done@.map_values(view) =~= done0.map_values(view).push(done@.last()@));
    }
    done
}

/// A text that does not end in white space has a word.
pub proof fn lemma_words_nonempty(s: Seq<char>)
    requires
        s.len() > 0,
        !is_white_space(s.last()),
    ensures
        words(s).len() > 0,
{
}

/// Every word of a text is not empty, holds no white space, and holds only what the text holds.
pub proof fn lemma_words(s: Seq<char>)
    ensures
        forall|i: int| #![trigger words(s)[i]]
            0 <= i < words(s).len() ==> words(s)[i].len() > 0,
        forall|i: int, k: int| #![trigger words(s)[i][k]]
            0 <= i < words(s).len() && 0 <= k < words(s)[i].len() ==> s.contains(words(s)[i][k])
                && !is_white_space(words(s)[i][k]),
    decreases s.len(),
{
    if s.len() > 0 {
        let first = s.drop_last();
        let before = words(first);
        let all = words(s);
        lemma_words(first);
        assert forall|c: char| first.contains(c) implies #[trigger] s.contains(c) by {
            let i = choose|i: int| 0 <= i < first.len() && first[i] == c;
            assert(s[i] == c);
        }
        assert(s.contains(s.last()));
        if !is_white_space(s.last()) && s.len() > 1 && !is_white_space(s[s.len() - 2]) {
            assert(first.last() == s[s.len() - 2]);
            lemma_words_nonempty(first);
        }
        assert forall|i: int, k: int| #![trigger all[i][k]]
            0 <= i < all.len() && 0 <= k < all[i].len() implies s.contains(all[i][k])
            && !is_white_space(all[i][k]) by {
            if is_white_space(s.last()) {
                assert(first.contains(before[i][k]));
            } else if s.len() == 1 || is_white_space(s[s.len() - 2]) {
                if i < before.len() {
                    assert(first.contains(before[i][k]));
                }
            } else {
                if i < before.len() - 1 || k < before[i].len() {
                    assert(all[i][k] == before[i][k]);
                    assert(first.contains(before[i][k]));
                }
            }
        }
    }
}

} // verus!
