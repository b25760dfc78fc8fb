//! What holds of every text: trimming, lower case, splitting and searching.

use crate::laws::parsing::{lemma_one_word, lemma_words_combine};
use crate::laws::scoring::lemma_occurs;
use crate::text::{
    is_white_space, lower, occurs, occurs_at, optional, replaced, strip, strip_back, strip_front,
    texts, unicode_lowercase, words, CharClass,
};
use vstd::prelude::*;
use vstd::utf8::is_ascii_chars;

verus! {

/// Every character of a text belongs to a class.
pub open spec fn all_of(class: CharClass, s: Seq<char>) -> bool {
    forall|i: int| 0 <= i < s.len() ==> class.has(#[trigger] s[i])
}

/// A class of one character holds that one alone; the class of white space holds white space.
pub proof fn classes_hold_what_they_say(c: char, only: char)
    ensures
        CharClass::Only(only).has(c) <==> c == only,
        CharClass::WhiteSpace.has(c) <==> is_white_space(c),
{
}

/// Trimming the front takes the characters of a class from there, all of them, and nothing else.
pub proof fn trimming_the_front_takes_it_alone(a: Seq<char>, t: Seq<char>, class: CharClass)
    requires
        all_of(class, a),
        t.len() == 0 || !class.has(t[0]),
    ensures
        strip_front(a + t, class) == t,
    decreases a.len(),
{
    if a.len() == 0 {
        assert(a + t =~= t);
    } else {
        assert((a + t)[0] == a[0]);
        let rest = a.drop_first();
        assert forall|i: int| 0 <= i < rest.len() implies class.has(#[trigger] rest[i]) by {
            assert(rest[i] == a[i + 1]);
        }
        assert((a + t).drop_first() =~= rest + t);
        trimming_the_front_takes_it_alone(rest, t, class);
    }
}

/// Trimming the back takes the characters of a class from there, all of them, and nothing else.
pub proof fn trimming_the_back_takes_it_alone(t: Seq<char>, b: Seq<char>, class: CharClass)
    requires
        all_of(class, b),
        t.len() == 0 || !class.has(t.last()),
    ensures
        strip_back(t + b, class) == t,
    decreases b.len(),
{
    if b.len() == 0 {
        assert(t + b =~= t);
    } else {
        assert((t + b).last() == b[b.len() - 1]);
        let rest = b.drop_last();
        assert forall|i: int| 0 <= i < rest.len() implies class.has(#[trigger] rest[i]) by {
            assert(rest[i] == b[i]);
        }
        assert((t + b).drop_last() =~= t + rest);
        trimming_the_back_takes_it_alone(t, rest, class);
    }
}

/// Trimming takes the characters of a class from both ends, all of them, and leaves whatever
/// stands between them as it is, also where the class stands within.
pub proof fn trimming_takes_the_ends_alone(
    a: Seq<char>,
    t: Seq<char>,
    b: Seq<char>,
    class: CharClass,
)
    requires
        all_of(class, a),
        all_of(class, b),
        t.len() > 0,
        !class.has(t[0]),
        !class.has(t.last()),
    ensures
        strip(a + t + b, class) == t,
        strip_front(a + t + b, class) == t + b,
        strip_back(a + t + b, class) == a + t,
{
    assert(a + t + b =~= a + (t + b));
    assert((t + b)[0] == t[0]);
    trimming_the_front_takes_it_alone(a, t + b, class);
    trimming_the_back_takes_it_alone(t, b, class);
    assert((a + t).last() == t.last());
    trimming_the_back_takes_it_alone(a + t, b, class);
}

/// A text of characters of a class alone is trimmed to nothing.
pub proof fn trimming_can_leave_nothing(a: Seq<char>, class: CharClass)
    requires
        all_of(class, a),
    ensures
        strip(a, class) == Seq::<char>::empty(),
        strip_front(a, class) == Seq::<char>::empty(),
        strip_back(a, class) == Seq::<char>::empty(),
{
    let none = Seq::<char>::empty();
    assert(a + none =~= a);
    assert(none + a =~= a);
    trimming_the_front_takes_it_alone(a, none, class);
    trimming_the_back_takes_it_alone(none, a, class);
    assert(strip_back(none, class) == none);
}

/// Lower case turns the letters `A` to `Z` of an ASCII text into `a` to `z`, each in its place,
/// and leaves every other character. Any other text becomes what `str::to_lowercase` makes of it.
pub proof fn lower_case_goes_letter_by_letter(s: Seq<char>, i: int)
    requires
        0 <= i < s.len(),
    ensures
        is_ascii_chars(s) ==> lower(s).len() == s.len(),
        is_ascii_chars(s) && 'A' <= s[i] <= 'Z' ==> lower(s)[i] as int == s[i] as int + 32,
        is_ascii_chars(s) && !('A' <= s[i] <= 'Z') ==> lower(s)[i] == s[i],
        !is_ascii_chars(s) ==> lower(s) == unicode_lowercase(s),
        lower(seq![]) == Seq::<char>::empty(),
{
    assert(lower(seq![]) =~= seq![]);
}

/// Replacing a character changes it wherever it stands, and nothing else.
pub proof fn replacing_goes_character_by_character(s: Seq<char>, from: char, to: char, i: int)
    requires
        0 <= i < s.len(),
    ensures
        replaced(s, from, to).len() == s.len(),
        s[i] == from ==> replaced(s, from, to)[i] == to,
        s[i] != from ==> replaced(s, from, to)[i] == s[i],
{
}

/// White space parts words, and nothing else does: a text without it is one word, and a text with
/// some in it has the words before it and the words behind it.
pub proof fn white_space_parts_words(a: Seq<char>, space: char, b: Seq<char>, word: Seq<char>)
    requires
        is_white_space(space),
        word.len() > 0,
        forall|i: int| #![trigger word[i]] 0 <= i < word.len() ==> !is_white_space(word[i]),
    ensures
        words(a + seq![space] + b) == words(a) + words(b),
        words(word) == seq![word],
        words(seq![]) == Seq::<Seq<char>>::empty(),
{
    lemma_one_word(word);
    let blank = a + seq![space];
    assert(blank.last() == space);
    assert(blank.drop_last() =~= a);
    assert(words(blank) == words(a));
    lemma_words_combine(blank, b);
}

/// A text stands in another exactly if that one can be written as something, the text, and
/// something; and it stands at a place exactly if just as many characters come before it.
pub proof fn a_text_stands_in_another(hay: Seq<char>, needle: Seq<char>, at: int)
    ensures
        occurs(hay, needle) <==> exists|a: Seq<char>, b: Seq<char>| hay == #[trigger] (a + needle
            + b),
        occurs_at(hay, needle, at) <==> exists|a: Seq<char>, b: Seq<char>|
            hay == #[trigger] (a + needle + b) && a.len() == at,
{
    lemma_occurs(hay, needle);
    if occurs_at(hay, needle, at) {
        let a = hay.take(at);
        let b = hay.skip(at + needle.len());
        assert(hay =~= a + needle + b);
    }
    if exists|a: Seq<char>, b: Seq<char>| hay == #[trigger] (a + needle + b) && a.len() == at {
        let (a, b) = choose|a: Seq<char>, b: Seq<char>|
            hay == #[trigger] (a + needle + b) && a.len() == at;
        assert(hay.subrange(at, at + needle.len()) =~= needle);
    }
}

/// The texts of a list of strings are theirs, one for each and in order.
pub proof fn every_string_has_its_text(list: Seq<String>, i: int)
    requires
        0 <= i < list.len(),
    ensures
        texts(list).len() == list.len(),
        texts(list)[i] == list[i]@,
        optional(Some(list[i])) == Some(list[i]@),
        optional(None) is None,
{
}

} // verus!
