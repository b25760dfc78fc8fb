//! Setting a configuration up by asking for locations and a memory limit.

use crate::config::{
    location_of, normalize_include_input, Config, ConfigView, Location, NoHome,
};
use crate::numbers::{number, parse_usize};
use crate::text::{optional, strip, texts, to_chars, trim, CharClass};
use vstd::prelude::*;

verus! {

/// A configuration that is being set up.
pub struct Onboarding {
    pub config: Config,
    /// The locations that were typed in so far.
    pub entered: Vec<String>,
}

/// A configuration that is being set up, as texts.
#[verifier::ext_equal]
pub struct OnboardingView {
    pub config: ConfigView,
    pub entered: Seq<Seq<char>>,
}

impl View for Onboarding {
    type V = OnboardingView;

    open spec fn view(&self) -> OnboardingView {
        OnboardingView { config: self.config@, entered: texts(self.entered@) }
    }
}

/// What became of the locations once all were typed in.
#[derive(Debug, Clone, Copy, PartialEq, Eq, Structural)]
pub enum Locations {
    /// Those that were typed in replaced those of the configuration.
    Replaced,
    /// None was typed in and those of the configuration stay.
    Kept,
    /// There is none at all; the current directory is to be used.
    Missing,
}

/// What became of a memory limit that was typed in.
#[derive(Debug, Clone, Copy, PartialEq, Eq, Structural)]
pub enum Cap {
    /// Nothing was typed in and the limit stays.
    Kept,
    /// The limit is what was typed in.
    Changed,
    /// What was typed in is no number above zero, and the limit stays.
    Invalid,
}

/// A list of locations with one more, unless it is empty or already there.
pub open spec fn added(entered: Seq<Seq<char>>, path: Seq<char>) -> Seq<Seq<char>> {
    if path.len() == 0 || entered.contains(path) {
        entered
    } else {
        entered.push(path)
    }
}

/// The locations of a list, each once and none empty, in the order in which they first come.
pub open spec fn distinct(paths: Seq<Seq<char>>) -> Seq<Seq<char>>
    decreases paths.len(),
{
    if paths.len() == 0 {
        seq![]
    } else {
        added(distinct(paths.drop_last()), paths.last())
    }
}

impl OnboardingView {
    /// The start, from a configuration.
    pub open spec fn start(config: ConfigView) -> OnboardingView {
        OnboardingView { config, entered: seq![] }
    }

    /// One more location is typed in.
    pub open spec fn with_location(self, path: Seq<char>) -> OnboardingView {
        OnboardingView { entered: added(self.entered, path), ..self }
    }

    /// More locations are typed in, one after the other.
    pub open spec fn with_all(self, paths: Seq<Seq<char>>) -> OnboardingView
        decreases paths.len(),
    {
        if paths.len() == 0 {
            self
        } else {
            self.with_all(paths.drop_last()).with_location(paths.last())
        }
    }

    /// What is to become of the locations.
    pub open spec fn outcome(self) -> Locations {
        if self.entered.len() > 0 {
            Locations::Replaced
        } else if self.config.include_paths.len() > 0 {
            Locations::Kept
        } else {
            Locations::Missing
        }
    }

    /// The list of locations is ended.
    pub open spec fn finished(self) -> OnboardingView {
        OnboardingView {
            config: if self.entered.len() > 0 {
                ConfigView { include_paths: self.entered, ..self.config }
            } else {
                self.config
            },
            entered: seq![],
        }
    }

    /// The current directory is used.
    pub open spec fn with_fallback(self, current_dir: Seq<char>) -> OnboardingView {
        OnboardingView {
            config: ConfigView { include_paths: seq![current_dir], ..self.config },
            ..self
        }
    }

    /// A memory limit is typed in; it stays if that is none.
    pub open spec fn with_cap(self, line: Seq<char>) -> OnboardingView {
        match cap_of(line) {
            Some(cap) => OnboardingView {
                config: ConfigView { watch_pending_ram_cap_mb: cap, ..self.config },
                ..self
            },
            None => self,
        }
    }

    /// The configuration that all the questions leave.
    pub open spec fn answered(
        self,
        paths: Seq<Seq<char>>,
        current_dir: Seq<char>,
        cap: Seq<char>,
    ) -> ConfigView {
        let all = self.with_all(paths);
        (if all.outcome() == Locations::Missing {
            all.finished().with_fallback(current_dir)
        } else {
            all.finished()
        }).with_cap(cap).config
    }
}

/// The memory limit that a line stands for: a number above zero that fits.
pub open spec fn cap_of(line: Seq<char>) -> Option<usize> {
    match number(strip(line, CharClass::WhiteSpace)) {
        Some(n) if 0 < n <= usize::MAX => Some(n as usize),
        _ => None,
    }
}

impl Onboarding {
    /// Starts from a configuration.
    pub fn new(config: Config) -> (r: Self)
        ensures
            r@ == OnboardingView::start(config@),
    {
        let r = Onboarding { config, entered: Vec::new() };
        assert(r@.entered =~= seq![]);
        r
    }

    /// Finds out which location a line stands for. An empty line ends the list.
    pub fn read_location(&self, line: &str, home: &Option<String>) -> (r: Result<Location, NoHome>)
        ensures
            match r {
                Ok(location) => location_of(line@, optional(*home)) == Some(location@),
                Err(NoHome) => location_of(line@, optional(*home)) is None,
            },
            (r matches Ok(Location::Blank)) == (strip(line@, CharClass::WhiteSpace).len() == 0),
    {
        normalize_include_input(line, home)
    }

    /// Adds a location, unless it is empty or already there.
    pub fn add_location(&mut self, path: String)
        ensures
            final(self)@ == old(self)@.with_location(path@),
    {
        if path.as_str().is_empty() {
            return;
        }
        let mut i: usize = 0;
        while i < self.entered.len()
            invariant
                i <= self.entered@.len(),
                *self == *old(self),
                forall|k: int| #![trigger self.entered@[k]]
                    0 <= k < i ==> self.entered@[k]@ != path@,
            decreases self.entered@.len() - i,
        {
            if self.entered[i] == path {
                assert(texts(self.entered@)[i as int] == path@);
                return;
            }
            i += 1;
        }
        assert forall|k: int| 0 <= k < self@.entered.len() implies self@.entered[k] != path@ by {
            assert(self@.entered[k] == self.entered@[k]@);
        }
        self.entered.push(path);
        assert(self@.entered =~= old(self)@.entered.push(path@));
    }

    /// Ends the list of locations.
    pub fn finish_locations(&mut self) -> (r: Locations)
        ensures
            r == old(self)@.outcome(),
            final(self)@ == old(self)@.finished(),
    {
        assert(self@.entered.len() == self.entered@.len());
        assert(self@.config.include_paths.len() == self.config.include_paths@.len());
        let mut entered: Vec<String> = Vec::new();
        std::mem::swap(&mut self.entered, &mut entered);
        assert(self@.entered =~= Seq::<Seq<char>>::empty());
        if !entered.is_empty() {
            self.config.include_paths = entered;
            Locations::Replaced
        } else if !self.config.include_paths.is_empty() {
            Locations::Kept
        } else {
            Locations::Missing
        }
    }

    /// Uses the current directory where there is no location.
    pub fn use_fallback(&mut self, current_dir: String)
        ensures
            final(self)@ == old(self)@.with_fallback(current_dir@),
    {
        let mut only: Vec<String> = Vec::new();
        only.push(current_dir);
        self.config.include_paths = only;
        assert(self@.config.include_paths =~= seq![current_dir@]);
    }

    /// Sets the memory limit to what was typed in, if that is a number above zero.
    pub fn set_cap(&mut self, line: &str) -> (r: Cap)
        ensures
            r == (if strip(line@, CharClass::WhiteSpace).len() == 0 {
                Cap::Kept
            } else if cap_of(line@) is Some {
                Cap::Changed
            } else {
                Cap::Invalid
            }),
            final(self)@ == old(self)@.with_cap(line@),
    {
        let chars = trim(&to_chars(line), CharClass::WhiteSpace);
        if chars.len() == 0 {
            return Cap::Kept;
        }
        let value = match parse_usize(&chars) {
            Some(value) => value,
            None => 0,
        };
        if value > 0 {
            self.config.watch_pending_ram_cap_mb = value;
            Cap::Changed
        } else {
            Cap::Invalid
        }
    }
}

/// What the distinct locations of a list are.
pub proof fn lemma_distinct(paths: Seq<Seq<char>>)
    ensures
        distinct(paths).no_duplicates(),
        forall|p: Seq<char>| #[trigger]
            distinct(paths).contains(p) <==> paths.contains(p) && p.len() > 0,
    decreases paths.len(),
{
    if paths.len() > 0 {
        let first = paths.drop_last();
        lemma_distinct(first);
        let d = distinct(first);
        let last = paths.last();
        assert forall|p: Seq<char>| #[trigger] distinct(paths).contains(p) <==> paths.contains(p)
            && p.len() > 0 by {
            if paths.contains(p) && p.len() > 0 {
                if p == last {
                    if !d.contains(last) {
                        assert(d.push(last)[d.len() as int] == p);
                    }
                } else {
                    let i = choose|i: int| 0 <= i < paths.len() && paths[i] == p;
                    assert(first[i] == p);
                    assert(d.contains(p));
                    let j = choose|j: int| 0 <= j < d.len() && d[j] == p;
                    assert(added(d, last)[j] == p);
                }
            }
            if distinct(paths).contains(p) {
                let j = choose|j: int| 0 <= j < distinct(paths).len() && distinct(paths)[j] == p;
                if j < d.len() {
                    assert(d[j] == p);
                    assert(d.contains(p));
                    let i = choose|i: int| 0 <= i < first.len() && first[i] == p;
                    assert(paths[i] == p);
                } else {
                    assert(p == last);
                    assert(paths[paths.len() - 1] == p);
                }
            }
        }
    }
}

/// What is held once all locations were typed in.
pub proof fn lemma_all_typed(config: ConfigView, paths: Seq<Seq<char>>)
    ensures
        OnboardingView::start(config).with_all(paths) == (OnboardingView {
            config,
            entered: distinct(paths),
        }),
    decreases paths.len(),
{
    if paths.len() > 0 {
        lemma_all_typed(config, paths.drop_last());
    }
}

/// The questions leave every location that was typed in, each once and in the order in which it
/// was first typed; if there was none, the locations that were there before; if there was none
/// either, the current directory.
pub proof fn locations_are_complete(
    config: ConfigView,
    paths: Seq<Seq<char>>,
    current_dir: Seq<char>,
    cap: Seq<char>,
)
    ensures
        ({
            let left = OnboardingView::start(config).answered(
                paths,
                current_dir,
                cap,
            ).include_paths;
            if exists|i: int| 0 <= i < paths.len() && #[trigger] paths[i].len() > 0 {
                &&& left == distinct(paths)
                &&& left.no_duplicates()
                &&& forall|p: Seq<char>| #[trigger]
                    left.contains(p) <==> paths.contains(p) && p.len() > 0
            } else if config.include_paths.len() > 0 {
                left == config.include_paths
            } else {
                left == seq![current_dir]
            }
        }),
{
    lemma_all_typed(config, paths);
    lemma_distinct(paths);
    if exists|i: int| 0 <= i < paths.len() && #[trigger] paths[i].len() > 0 {
        let i = choose|i: int| 0 <= i < paths.len() && #[trigger] paths[i].len() > 0;
        assert(paths.contains(paths[i]));
        assert(distinct(paths).contains(paths[i]));
    } else if distinct(paths).len() > 0 {
        assert(distinct(paths).contains(distinct(paths)[0]));
    }
}

/// The questions leave a memory limit above zero above zero, and everything but the locations
/// and that limit as it was.
pub proof fn the_rest_stays(
    config: ConfigView,
    paths: Seq<Seq<char>>,
    current_dir: Seq<char>,
    cap: Seq<char>,
)
    ensures
        ({
            let left = OnboardingView::start(config).answered(paths, current_dir, cap);
            &&& left.watch_pending_ram_cap_mb == (match cap_of(cap) {
                Some(n) => n,
                None => config.watch_pending_ram_cap_mb,
            })
            &&& config.watch_pending_ram_cap_mb > 0 ==> left.watch_pending_ram_cap_mb > 0
            &&& left.ignore == config.ignore
            &&& left.depth == config.depth
            &&& left.highlight_color == config.highlight_color
            &&& left.editor == config.editor
        }),
{
    lemma_all_typed(config, paths);
}

} // verus!
