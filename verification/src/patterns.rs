//! Unix shell patterns, compiled and matched by the `glob` crate. Paths are parted by `/` alone,
//! as on Unix.

use vstd::prelude::*;

verus! {

/// `glob::Pattern`, a compiled pattern. What it holds is seen through `pattern_source` alone.
#[verifier::external_type_specification]
#[verifier::external_body]
pub struct ExPattern(glob::Pattern);

/// The text that a compiled pattern was made from, as `glob::Pattern::as_str` gives it.
pub uninterp spec fn pattern_source(pattern: glob::Pattern) -> Seq<char>;

/// The error that `glob::Pattern::new` reports for a text: a position and a message.
pub uninterp spec fn pattern_error(source: Seq<char>) -> Option<(usize, Seq<char>)>;

/// What `glob::Pattern::matches` answers for a pattern and a text.
pub uninterp spec fn pattern_accepts(source: Seq<char>, text: Seq<char>) -> bool;

/// Two stars in a row from `i` on.
pub open spec fn two_stars(p: Seq<char>, i: int) -> bool {
    0 <= i && i + 1 < p.len() && p[i] == '*' && p[i + 1] == '*'
}

/// Two stars in a row stand only as a whole part of a path: between `/`, or at the ends.
pub open spec fn stars_fit(p: Seq<char>) -> bool {
    forall|i: int| #[trigger]
        two_stars(p, i) ==> (i == 0 || p[i - 1] == '/') && (i + 2 == p.len() || p[i + 2] == '/')
}

/// The pattern starts with `**/`.
pub open spec fn starts_deep(p: Seq<char>) -> bool {
    p.len() >= 3 && p[0] == '*' && p[1] == '*' && p[2] == '/'
}

/// `**` or `**/`.
pub open spec fn is_whole_tree(p: Seq<char>) -> bool {
    p == seq!['*', '*'] || p == seq!['*', '*', '/']
}

/// What comes behind the first `/` of a text.
pub open spec fn behind_slash(t: Seq<char>) -> Seq<char>
    decreases t.len(),
{
    if t.len() == 0 || t[0] == '/' {
        t.drop_first()
    } else {
        behind_slash(t.drop_first())
    }
}

/// What comes behind the first `/` is shorter.
pub proof fn lemma_behind_slash(t: Seq<char>) -> (k: int)
    requires
        t.contains('/'),
    ensures
        0 <= k < t.len(),
        t[k] == '/',
        forall|i: int| 0 <= i < k ==> t[i] != '/',
        behind_slash(t) == t.skip(k + 1),
        behind_slash(t).len() < t.len(),
    decreases t.len(),
{
    let i = choose|i: int| 0 <= i < t.len() && t[i] == '/';
    if t[0] == '/' {
        assert(t.drop_first() =~= t.skip(1));
        0
    } else {
        let u = t.drop_first();
        assert(u[i - 1] == '/');
        let k = lemma_behind_slash(u);
        assert(u.skip(k + 1) =~= t.skip(k + 2));
        assert forall|j: int| 0 <= j < k + 1 implies t[j] != '/' by {
            if j > 0 {
                assert(u[j - 1] == t[j]);
            }
        }
        k + 1
    }
}

/// Which texts a pattern without `[` stands for.
///
/// `?` stands for one character, `*` for any number of them, `**/` for nothing or for any number
/// of parts that end in `/`, `**` or `**/` at the end for whatever follows, and any other
/// character for itself.
pub open spec fn wild(p: Seq<char>, t: Seq<char>) -> bool
    decreases p.len(), t.len(),
{
    if p.len() == 0 {
        t.len() == 0
    } else if is_whole_tree(p) {
        true
    } else if starts_deep(p) {
        proof {
            if t.contains('/') {
                let _k = lemma_behind_slash(t);
            }
        }
        wild(p.skip(3), t) || (t.contains('/') && wild(p, behind_slash(t)))
    } else if p[0] == '*' {
        wild(p.drop_first(), t) || (t.len() > 0 && wild(p, t.drop_first()))
    } else {
        t.len() > 0 && (p[0] == '?' || p[0] == t[0]) && wild(p.drop_first(), t.drop_first())
    }
}

/// `**/` in front of a pattern.
pub open spec fn at_any_depth(p: Seq<char>) -> Seq<char> {
    seq!['*', '*', '/'] + p
}

/// `**/` in front of a pattern and `/**` behind it.
pub open spec fn below_any_depth(p: Seq<char>) -> Seq<char> {
    seq!['*', '*', '/'] + p + seq!['/', '*', '*']
}

/// The error that a pattern's text has, if any. Without `[`, the stars alone decide whether
/// there is one.
pub open spec fn syntax_error(source: Seq<char>) -> Option<(usize, Seq<char>)> {
    if source.contains('[') {
        pattern_error(source)
    } else if stars_fit(source) {
        None
    } else {
        Some(pattern_error(source)->0)
    }
}

/// Whether a pattern accepts a text as a whole.
pub open spec fn accepts(source: Seq<char>, text: Seq<char>) -> bool {
    if source.contains('[') {
        pattern_accepts(source, text)
    } else {
        wild(source, text)
    }
}

/// `glob::Pattern::new` compiles a text without `[` exactly if two stars in a row stand only as a
/// whole part of a path. Whether it compiles a text with `[`, and the error wherever there is
/// one, depends on the text alone. The compiled pattern keeps its text.
#[verifier::external_body]
fn compile(source: &str) -> (r: Result<glob::Pattern, (usize, String)>)
    ensures
        r matches Ok(pattern) ==> pattern_source(pattern) == source@,
        !source@.contains('[') ==> (r is Ok <==> stars_fit(source@)),
        source@.contains('[') || !stars_fit(source@) ==> pattern_error(source@) == (match r {
            Ok(_) => None,
            Err((pos, msg)) => Some((pos, msg@)),
        }),
{
    glob::Pattern::new(source).map_err(|e| (e.pos, e.msg.to_string()))
}

/// `glob::Pattern::matches` with its default options: case counts, and `*` and `?` also stand
/// for `/`. A `**/` stands for nothing or for a part of the text that ends in `/`; a `**` or
/// `**/` at the end stands for whatever follows. What a pattern with `[` accepts depends on the
/// pattern and the text alone.
pub assume_specification[ glob::Pattern::matches ](pattern: &glob::Pattern, str: &str) -> (r: bool)
    ensures
        !pattern_source(*pattern).contains('[') ==> r == wild(pattern_source(*pattern), str@),
        pattern_source(*pattern).contains('[') ==> r == pattern_accepts(
            pattern_source(*pattern),
            str@,
        ),
;

/// Why a text is not a pattern.
#[derive(Debug, Clone, PartialEq, Eq)]
pub struct PatternError {
    /// About where in the text the error lies.
    pub pos: usize,
    /// What is wrong there.
    pub msg: String,
}

/// A compiled pattern.
pub struct Glob {
    pattern: glob::Pattern,
}

impl View for Glob {
    type V = Seq<char>;

    /// The text that the pattern was made from.
    closed spec fn view(&self) -> Seq<char> {
        pattern_source(self.pattern)
    }
}

impl Glob {
    /// Compiles a pattern.
    pub fn new(source: &str) -> (r: Result<Glob, PatternError>)
        ensures
            match r {
                Ok(glob) => glob@ == source@ && syntax_error(source@) is None,
                Err(e) => syntax_error(source@) == Some((e.pos, e.msg@)),
            },
    {
        match compile(source) {
            Ok(pattern) => Ok(Glob { pattern }),
            Err((pos, msg)) => Err(PatternError { pos, msg }),
        }
    }

    /// Tells whether the pattern accepts a text as a whole.
    pub fn matches(&self, text: &str) -> (r: bool)
        ensures
            r == accepts(self@, text@),
    {
        self.pattern.matches(text)
    }
}

} // verus!
