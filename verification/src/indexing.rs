//! Looking through a directory for files to index.

use crate::patterns::Glob;
use crate::text::{add_text, texts};
use crate::watcher::ignore::{ignored, is_ignored, sources};
use vstd::prelude::*;

verus! {

/// Something that stands in a directory.
pub struct Entry {
    pub path: String,
    pub is_dir: bool,
    pub is_file: bool,
}

/// An entry as text.
#[verifier::ext_equal]
pub struct EntryView {
    pub path: Seq<char>,
    pub is_dir: bool,
    pub is_file: bool,
}

impl View for Entry {
    type V = EntryView;

    open spec fn view(&self) -> EntryView {
        EntryView { path: self.path@, is_dir: self.is_dir, is_file: self.is_file }
    }
}

/// What to do about an entry.
#[derive(Debug, Clone, Copy, PartialEq, Eq, Structural)]
pub enum Visit {
    /// Add it to the index.
    Insert,
    /// Look through it.
    Descend,
    /// Nothing: it is left out.
    Ignore,
    /// Nothing: it is neither a file nor a directory that lies within the depth limit.
    Skip,
}

/// What to do about an entry that stands so many directories deep.
///
/// What is left out is not looked at. A directory is looked through unless its entries would
/// lie too deep.
pub open spec fn visit_of(
    entry: EntryView,
    depth: int,
    limit: int,
    roots: Seq<Seq<char>>,
    patterns: Seq<Seq<char>>,
) -> Visit {
    if ignored(entry.path, roots, patterns) {
        Visit::Ignore
    } else if entry.is_dir {
        if depth < limit {
            Visit::Descend
        } else {
            Visit::Skip
        }
    } else if entry.is_file && depth <= limit {
        Visit::Insert
    } else {
        Visit::Skip
    }
}

/// Decides what to do about an entry that stands so many directories deep.
pub fn visit(
    entry: &Entry,
    depth: usize,
    limit: usize,
    include_roots: &Vec<String>,
    ignore_patterns: &Vec<Glob>,
) -> (r: Visit)
    ensures
        r == visit_of(
            entry@,
            depth as int,
            limit as int,
            texts(include_roots@),
            sources(ignore_patterns@),
        ),
{
    if is_ignored(entry.path.as_str(), include_roots, ignore_patterns) {
        Visit::Ignore
    } else if entry.is_dir {
        if depth < limit {
            Visit::Descend
        } else {
            Visit::Skip
        }
    } else if entry.is_file && depth <= limit {
        Visit::Insert
    } else {
        Visit::Skip
    }
}

/// The entries of a directory as texts.
pub open spec fn entries_seen(entries: Seq<Entry>) -> Seq<EntryView> {
    entries.map_values(|e: Entry| e@)
}

/// The paths of the entries about which something is to be done, in order.
pub open spec fn to_visit(
    entries: Seq<EntryView>,
    what: Visit,
    depth: int,
    limit: int,
    roots: Seq<Seq<char>>,
    patterns: Seq<Seq<char>>,
) -> Seq<Seq<char>>
    decreases entries.len(),
{
    if entries.len() == 0 {
        seq![]
    } else {
        let before = to_visit(entries.drop_last(), what, depth, limit, roots, patterns);
        if visit_of(entries.last(), depth, limit, roots, patterns) == what {
            before.push(entries.last().path)
        } else {
            before
        }
    }
}

/// What looking at the entries of a directory brings.
pub struct Looked {
    /// The files to add to the index.
    pub files: Vec<String>,
    /// The directories to look through.
    pub directories: Vec<String>,
    /// The entries that are left out.
    pub ignored: Vec<String>,
}

/// Looks at the entries of a directory, which stand so many directories deep.
pub fn look_at(
    entries: &Vec<Entry>,
    depth: usize,
    limit: usize,
    include_roots: &Vec<String>,
    ignore_patterns: &Vec<Glob>,
) -> (r: Looked)
    ensures
        ({
            let (seen, d, l) = (entries_seen(entries@), depth as int, limit as int);
            let (roots, patterns) = (texts(include_roots@), sources(ignore_patterns@));
            &&& texts(r.files@) == to_visit(seen, Visit::Insert, d, l, roots, patterns)
            &&& texts(r.directories@) == to_visit(seen, Visit::Descend, d, l, roots, patterns)
            &&& texts(r.ignored@) == to_visit(seen, Visit::Ignore, d, l, roots, patterns)
        }),
{
    let ghost seen = entries_seen(entries@);
    let ghost (d, l) = (depth as int, limit as int);
    let ghost (roots, patterns) = (texts(include_roots@), sources(ignore_patterns@));
    let mut r = Looked { files: Vec::new(), directories: Vec::new(), ignored: Vec::new() };
    let mut i: usize = 0;
    assert(seen.take(0) =~= seq![]);
    assert(texts(r.files@) =~= seq![] && texts(r.directories@) =~= seq![] && texts(r.ignored@)
        =~= seq![]);
    while i < entries.len()
        invariant
            i <= entries@.len(),
            seen == entries_seen(entries@),
            d == depth,
            l == limit,
            roots == texts(include_roots@),
            patterns == sources(ignore_patterns@),
            texts(r.files@) == to_visit(
                seen.take(i as int),
                Visit::Insert,
                d,
                l,
                roots,
                patterns,
            ),
            texts(r.directories@) == to_visit(
                seen.take(i as int),
                Visit::Descend,
                d,
                l,
                roots,
                patterns,
            ),
            texts(r.ignored@) == to_visit(
                seen.take(i as int),
                Visit::Ignore,
                d,
                l,
                roots,
                patterns,
            ),
        decreases entries@.len() - i,
    {
        assert(seen[i as int] == entries@[i as int]@);
        assert(seen.take(i + 1).drop_last() =~= seen.take(i as int));
        let path = entries[i].path.clone();
        match visit(&entries[i], depth, limit, include_roots, ignore_patterns) {
            Visit::Insert => {
                add_text(&mut r.files, path);
            },
            Visit::Descend => {
                add_text(&mut r.directories, path);
            },
            Visit::Ignore => {
                add_text(&mut r.ignored, path);
            },
            Visit::Skip => {},
        }
        i += 1;
    }
    assert(seen.take(i as int) =~= seen);
    r
}

} // verus!
