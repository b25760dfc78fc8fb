//! What holds of every configuration and of setting one up.

use crate::config::{
    data_dir_of, default_config, location_of, roots_of, untilde, ConfigView, LocationView,
};
use crate::laws::showing::numbers_are_read_digit_by_digit;
use crate::laws::texts::{all_of, trimming_can_leave_nothing, trimming_takes_the_ends_alone};
use crate::numbers::{decimal, number, number_of_decimal};
use crate::onboarding::{cap_of, distinct, Locations, OnboardingView};
use crate::text::{is_white_space, CharClass};
use vstd::prelude::*;

verus! {

/// Where nothing else is said, the usual locations below the home directory are indexed, ten
/// directories deep, with a memory limit of two hundred megabytes and neither a color nor an
/// editor; without a home directory no location is.
pub proof fn the_usual_locations_are_indexed(home: Seq<char>)
    requires
        home.len() > 0,
        home.last() != '/',
    ensures
        ({
            let config = default_config(Some(home));
            &&& config.include_paths.len() == 4
            &&& config.include_paths[0] == home + "/Documents"@
            &&& config.include_paths[1] == home + "/Projects"@
            &&& config.include_paths[2] == home + "/Code"@
            &&& config.include_paths[3] == home + "/Desktop"@
            &&& config.depth == 10
            &&& config.watch_pending_ram_cap_mb == 200
            &&& config.highlight_color is None
            &&& config.editor is None
            &&& default_config(None).include_paths.len() == 0
            &&& default_config(None).ignore == config.ignore
            &&& default_config(None).depth == 10
        }),
        data_dir_of(home) == home + "/.quickfind"@,
{
    reveal_strlit("Documents");
    reveal_strlit("Projects");
    reveal_strlit("Code");
    reveal_strlit("Desktop");
    reveal_strlit(".quickfind");
    reveal_strlit("/Documents");
    reveal_strlit("/Projects");
    reveal_strlit("/Code");
    reveal_strlit("/Desktop");
    reveal_strlit("/.quickfind");
    let config = default_config(Some(home));
    assert(config.include_paths[0] =~= home + "/Documents"@);
    assert(config.include_paths[1] =~= home + "/Projects"@);
    assert(config.include_paths[2] =~= home + "/Code"@);
    assert(config.include_paths[3] =~= home + "/Desktop"@);
    assert(data_dir_of(home) =~= home + "/.quickfind"@);
}

/// The locations of a configuration are indexed, in order; where there is none, the current
/// directory is.
pub proof fn locations_are_indexed_or_the_current_directory(config: ConfigView)
    ensures
        config.include_paths.len() > 0 ==> roots_of(config) == config.include_paths,
        config.include_paths.len() == 0 ==> roots_of(config) == seq![seq!['.']],
{
    reveal_strlit(".");
    assert("."@ =~= seq!['.']);
}

/// White space around a location does not matter; a line of white space alone is blank; a path
/// from the root is absolute; and any other that does not start with `~` is relative.
pub proof fn locations_are_read_as_typed(
    front: Seq<char>,
    path: Seq<char>,
    back: Seq<char>,
    home: Option<Seq<char>>,
)
    requires
        all_of(CharClass::WhiteSpace, front),
        all_of(CharClass::WhiteSpace, back),
        path.len() > 0,
        !is_white_space(path[0]),
        !is_white_space(path.last()),
    ensures
        location_of(front, home) == Some(LocationView::Blank),
        location_of(front + path + back, home) == location_of(path, home),
        path[0] == '/' ==> location_of(path, home) == Some(LocationView::Absolute(path)),
        path[0] != '/' && path[0] != '~' ==> location_of(path, home) == Some(
            LocationView::Relative(path),
        ),
        path[0] == '~' && path.len() > 1 && path[1] != '/' ==> location_of(path, home) == Some(
            LocationView::Relative(path),
        ),
{
    let none = Seq::<char>::empty();
    trimming_can_leave_nothing(front, CharClass::WhiteSpace);
    trimming_takes_the_ends_alone(front, path, back, CharClass::WhiteSpace);
    trimming_takes_the_ends_alone(none, path, none, CharClass::WhiteSpace);
    assert(none + path + none =~= path);
}

/// A location behind `~` lies below the home directory, unless it is one from the root; `~` alone
/// is the home directory; and without one neither is a location.
pub proof fn a_tilde_is_the_home_directory(home: Seq<char>, path: Seq<char>)
    requires
        home.len() > 0,
        home[0] == '/',
        home.last() != '/',
        path.len() == 0 || !is_white_space(path.last()),
        !(path.len() >= 2 && path[0] == '~' && path[1] == '/'),
    ensures
        ({
            let place = Some(
                LocationView::Absolute(
                    if path.len() > 0 && path[0] == '/' {
                        path
                    } else {
                        home + seq!['/'] + path
                    },
                ),
            );
            &&& location_of(seq!['~', '/'] + path, Some(home)) == place
            &&& location_of(seq!['~', '/', '~', '/'] + path, Some(home)) == place
            &&& location_of(seq!['~', '/'] + path, Some(home.push('/'))) == place
        }),
        location_of(seq!['~'], Some(home)) == Some(LocationView::Absolute(home)),
        location_of(seq!['~'], None) is None,
        location_of(seq!['~', '/'] + path, None) is None,
{
    let none = Seq::<char>::empty();
    let bare = seq!['~'];
    assert(bare[0] == '~');
    assert(none + bare + none =~= bare);
    trimming_takes_the_ends_alone(none, bare, none, CharClass::WhiteSpace);
    let line = seq!['~', '/'] + path;
    assert(line[0] == '~' && line[1] == '/');
    assert(path.len() > 0 ==> line.last() == path.last());
    assert(none + line + none =~= line);
    trimming_takes_the_ends_alone(none, line, none, CharClass::WhiteSpace);
    assert(line.skip(2) =~= path);
    assert(untilde(path) == path);
    assert(untilde(line) == path);
    let twice = seq!['~', '/', '~', '/'] + path;
    assert(twice[0] == '~' && twice[1] == '/');
    assert(path.len() > 0 ==> twice.last() == path.last());
    assert(none + twice + none =~= twice);
    trimming_takes_the_ends_alone(none, twice, none, CharClass::WhiteSpace);
    assert(twice.skip(2) =~= line);
    assert(untilde(twice) == path);
    assert(home.push('/') + path =~= home + seq!['/'] + path);
}

/// A location that is typed in joins those before it at the end, and leaves them as they are; one
/// that is empty or was typed before joins nothing.
pub proof fn typed_locations_join_at_the_end(paths: Seq<Seq<char>>, path: Seq<char>)
    ensures
        distinct(seq![]) == Seq::<Seq<char>>::empty(),
        path.len() > 0 && !paths.contains(path) ==> distinct(paths.push(path)) == distinct(
            paths,
        ).push(path),
        path.len() == 0 || paths.contains(path) ==> distinct(paths.push(path)) == distinct(paths),
{
    crate::onboarding::lemma_distinct(paths);
    assert(paths.push(path).drop_last() =~= paths);
}

/// What becomes of the locations: those that were typed in replace those of the configuration; if
/// none was, those stay; and if there is none either, all are missing.
pub proof fn what_becomes_of_the_locations(config: ConfigView, paths: Seq<Seq<char>>)
    ensures
        ({
            let all = OnboardingView::start(config).with_all(paths);
            let typed = exists|i: int| 0 <= i < paths.len() && #[trigger] paths[i].len() > 0;
            &&& all.outcome() == Locations::Replaced <==> typed
            &&& all.outcome() == Locations::Kept <==> !typed && config.include_paths.len() > 0
            &&& all.outcome() == Locations::Missing <==> !typed && config.include_paths.len()
                == 0
            &&& all.finished().entered.len() == 0
            &&& all.config == config
        }),
{
    crate::onboarding::lemma_all_typed(config, paths);
    crate::onboarding::lemma_distinct(paths);
    let d = distinct(paths);
    if exists|i: int| 0 <= i < paths.len() && #[trigger] paths[i].len() > 0 {
        let i = choose|i: int| 0 <= i < paths.len() && #[trigger] paths[i].len() > 0;
        assert(paths.contains(paths[i]));
        assert(d.contains(paths[i]));
    } else if d.len() > 0 {
        assert(d.contains(d[0]));
        let i = choose|i: int| 0 <= i < paths.len() && paths[i] == d[0];
        assert(paths[i].len() > 0);
    }
}

/// White space around a memory limit does not matter; what stands between it is read as a number.
pub proof fn a_limit_is_read_as_a_number(front: Seq<char>, text: Seq<char>, back: Seq<char>)
    requires
        all_of(CharClass::WhiteSpace, front),
        all_of(CharClass::WhiteSpace, back),
        text.len() > 0,
        !is_white_space(text[0]),
        !is_white_space(text.last()),
    ensures
        cap_of(front + text + back) == (match number(text) {
            Some(n) if 0 < n && n <= usize::MAX => Some(n as usize),
            _ => None,
        }),
{
    trimming_takes_the_ends_alone(front, text, back, CharClass::WhiteSpace);
}

/// A memory limit is a number above zero, with or without white space around it; zero is none,
/// and nor is a number that does not fit or a text with anything but digits.
pub proof fn a_limit_is_a_number_above_zero(front: Seq<char>, n: nat, back: Seq<char>, c: char)
    requires
        all_of(CharClass::WhiteSpace, front),
        all_of(CharClass::WhiteSpace, back),
    ensures
        0 < n <= usize::MAX ==> cap_of(front + decimal(n) + back) == Some(n as usize),
        n == 0 || n > usize::MAX ==> cap_of(front + decimal(n) + back) is None,
        !('0' <= c <= '9') && !is_white_space(c) ==> cap_of(decimal(n).push(c)) is None,
        cap_of(front) is None,
{
    let none = Seq::<char>::empty();
    number_of_decimal(n);
    crate::numbers::lemma_decimal(n);
    let d = decimal(n);
    assert(crate::numbers::is_digit(d[0]));
    assert(crate::numbers::is_digit(d[d.len() - 1]));
    trimming_takes_the_ends_alone(front, d, back, CharClass::WhiteSpace);
    trimming_can_leave_nothing(front, CharClass::WhiteSpace);
    numbers_are_read_digit_by_digit(d, c);
    if !is_white_space(c) {
        let e = d.push(c);
        assert(e[0] == d[0]);
        assert(none + e + none =~= e);
        trimming_takes_the_ends_alone(none, e, none, CharClass::WhiteSpace);
    }
}

} // verus!
