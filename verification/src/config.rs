//! The configuration: its defaults, where it is kept, and which locations it names.

use crate::paths::{join, joined};
use crate::text::{
    add_text, from_chars, optional, same, strip, subvec, texts, to_chars, trim, CharClass,
};
use vstd::prelude::*;

verus! {

/// What is indexed and how results are shown.
pub struct Config {
    /// The locations to index.
    pub include_paths: Vec<String>,
    /// Patterns of paths to leave out.
    pub ignore: Vec<String>,
    /// How many directories deep to go.
    pub depth: usize,
    /// The name of the color that highlights results.
    pub highlight_color: Option<String>,
    /// The editor to try first.
    pub editor: Option<String>,
    /// The memory limit of the watcher, in megabytes.
    pub watch_pending_ram_cap_mb: usize,
}

/// A configuration as texts.
#[verifier::ext_equal]
pub struct ConfigView {
    pub include_paths: Seq<Seq<char>>,
    pub ignore: Seq<Seq<char>>,
    pub depth: usize,
    pub highlight_color: Option<Seq<char>>,
    pub editor: Option<Seq<char>>,
    pub watch_pending_ram_cap_mb: usize,
}

impl View for Config {
    type V = ConfigView;

    open spec fn view(&self) -> ConfigView {
        ConfigView {
            include_paths: texts(self.include_paths@),
            ignore: texts(self.ignore@),
            depth: self.depth,
            highlight_color: optional(self.highlight_color),
            editor: optional(self.editor),
            watch_pending_ram_cap_mb: self.watch_pending_ram_cap_mb,
        }
    }
}

/// The memory limit of the watcher in megabytes, where nothing else is said.
pub fn default_watch_pending_ram_cap_mb() -> (r: usize)
    ensures
        r == 200,
{
    200
}

/// The locations to index by default: the usual ones below the home directory.
pub open spec fn default_locations(home: Option<Seq<char>>) -> Seq<Seq<char>> {
    match home {
        Some(dir) => seq![
            joined(dir, "Documents"@),
            joined(dir, "Projects"@),
            joined(dir, "Code"@),
            joined(dir, "Desktop"@),
        ],
        None => seq![],
    }
}

/// The patterns to leave out by default.
pub open spec fn default_ignore() -> Seq<Seq<char>> {
    seq![
        "**/.*"@,
        "**/.git"@,
        "**/node_modules/**"@,
        "**/bower_components/**"@,
        "**/.venv/**"@,
        "**/venv/**"@,
        "**/__pycache__/**"@,
        "**/.mypy_cache/**"@,
        "**/.pytest_cache/**"@,
        "**/.tox/**"@,
        "**/.eggs/**"@,
        "**/*.egg-info/**"@,
        "**/target/**"@,
        "**/.cargo/**"@,
        "**/bin/**"@,
        "**/pkg/**"@,
        "**/build/**"@,
        "**/out/**"@,
        "**/.gradle/**"@,
        "**/CMakeFiles/**"@,
        "**/cmake-build-*/**"@,
        "**/.env/**"@,
        "**/.direnv/**"@,
        "**/.cache/**"@,
        "**/.local/**"@,
        "**/.uv/**"@,
        "**/.yarn/**"@,
        "**/.pnpm-store/**"@,
        "**/.next/**"@,
        "**/dist/**"@,
        "**/coverage/**"@,
    ]
}

/// The configuration where nothing else is said.
pub open spec fn default_config(home: Option<Seq<char>>) -> ConfigView {
    ConfigView {
        include_paths: default_locations(home),
        ignore: default_ignore(),
        depth: 10,
        highlight_color: None,
        editor: None,
        watch_pending_ram_cap_mb: 200,
    }
}

/// Puts a name behind a directory.
fn below(dir: &str, name: &str) -> (r: String)
    ensures
        r@ == joined(dir@, name@),
{
    from_chars(&join(&to_chars(dir), &to_chars(name)))
}

/// The patterns to leave out by default.
fn ignored_by_default() -> (r: Vec<String>)
    ensures
        texts(r@) == default_ignore(),
{
    let mut r: Vec<String> = Vec::new();
    add_text(&mut r, String::from_str("**/.*"));
    add_text(&mut r, String::from_str("**/.git"));
    add_text(&mut r, String::from_str("**/node_modules/**"));
    add_text(&mut r, String::from_str("**/bower_components/**"));
    add_text(&mut r, String::from_str("**/.venv/**"));
    add_text(&mut r, String::from_str("**/venv/**"));
    add_text(&mut r, String::from_str("**/__pycache__/**"));
    add_text(&mut r, String::from_str("**/.mypy_cache/**"));
    add_text(&mut r, String::from_str("**/.pytest_cache/**"));
    add_text(&mut r, String::from_str("**/.tox/**"));
    add_text(&mut r, String::from_str("**/.eggs/**"));
    add_text(&mut r, String::from_str("**/*.egg-info/**"));
    add_text(&mut r, String::from_str("**/target/**"));
    add_text(&mut r, String::from_str("**/.cargo/**"));
    add_text(&mut r, String::from_str("**/bin/**"));
    add_text(&mut r, String::from_str("**/pkg/**"));
    add_text(&mut r, String::from_str("**/build/**"));
    add_text(&mut r, String::from_str("**/out/**"));
    add_text(&mut r, String::from_str("**/.gradle/**"));
    add_text(&mut r, String::from_str("**/CMakeFiles/**"));
    add_text(&mut r, String::from_str("**/cmake-build-*/**"));
    add_text(&mut r, String::from_str("**/.env/**"));
    add_text(&mut r, String::from_str("**/.direnv/**"));
    add_text(&mut r, String::from_str("**/.cache/**"));
    add_text(&mut r, String::from_str("**/.local/**"));
    add_text(&mut r, String::from_str("**/.uv/**"));
    add_text(&mut r, String::from_str("**/.yarn/**"));
    add_text(&mut r, String::from_str("**/.pnpm-store/**"));
    add_text(&mut r, String::from_str("**/.next/**"));
    add_text(&mut r, String::from_str("**/dist/**"));
    add_text(&mut r, String::from_str("**/coverage/**"));
    assert(texts(r@) =~= default_ignore());
    r
}

/// `home::home_dir` looks the home directory up in the environment. Nothing is promised of what
/// it finds. A directory whose path is not text counts as none.
#[verifier::external_body]
fn home_dir() -> (r: Option<String>)
{
    home::home_dir().and_then(|dir| dir.to_str().map(|path| path.to_string()))
}

impl Default for Config {
    /// The configuration where nothing else is said, for whatever home directory there is.
    fn default() -> (r: Self)
        ensures
            exists|home: Option<Seq<char>>| r@ == #[trigger] default_config(home),
    {
        let home = home_dir();
        let r = Config::with_home(&home);
        assert(r@ == default_config(optional(home)));
        r
    }
}

impl Config {
    /// The configuration where nothing else is said, with the usual locations below the home
    /// directory if there is one.
    pub fn with_home(home: &Option<String>) -> (r: Self)
        ensures
            r@ == default_config(optional(*home)),
    {
        let mut include_paths: Vec<String> = Vec::new();
        if let Some(dir) = home {
            add_text(&mut include_paths, below(dir.as_str(), "Documents"));
            add_text(&mut include_paths, below(dir.as_str(), "Projects"));
            add_text(&mut include_paths, below(dir.as_str(), "Code"));
            add_text(&mut include_paths, below(dir.as_str(), "Desktop"));
        }
        assert(texts(include_paths@) =~= default_locations(optional(*home)));
        Config {
            include_paths,
            ignore: ignored_by_default(),
            depth: 10,
            highlight_color: None,
            editor: None,
            watch_pending_ram_cap_mb: default_watch_pending_ram_cap_mb(),
        }
    }
}

/// The directory below the home directory where everything is kept.
pub open spec fn data_dir_of(home: Seq<char>) -> Seq<char> {
    joined(home, ".quickfind"@)
}

/// The directory below the home directory where everything is kept.
pub fn data_dir(home: &str) -> (r: String)
    ensures
        r@ == data_dir_of(home@),
{
    below(home, ".quickfind")
}

/// The file that holds the configuration.
pub fn config_file(home: &str) -> (r: String)
    ensures
        r@ == joined(data_dir_of(home@), "conf.toml"@),
{
    below(data_dir(home).as_str(), "conf.toml")
}

/// The file that holds the index.
pub fn database_file(home: &str) -> (r: String)
    ensures
        r@ == joined(data_dir_of(home@), "db.sqlite"@),
{
    below(data_dir(home).as_str(), "db.sqlite")
}

/// The locations to index: those of a configuration, or the current directory.
pub open spec fn roots_of(config: ConfigView) -> Seq<Seq<char>> {
    if config.include_paths.len() == 0 {
        seq!["."@]
    } else {
        config.include_paths
    }
}

/// The locations to index: those of a configuration, or the current directory.
pub fn index_roots(config: &Config) -> (r: Vec<String>)
    ensures
        texts(r@) == roots_of(config@),
{
    let mut r: Vec<String> = Vec::new();
    if config.include_paths.is_empty() {
        add_text(&mut r, String::from_str("."));
    }
    let mut i: usize = 0;
    let ghost first = texts(r@);
    while i < config.include_paths.len()
        invariant
            i <= config.include_paths@.len(),
            texts(r@) == first + texts(config.include_paths@).take(i as int),
        decreases config.include_paths@.len() - i,
    {
        add_text(&mut r, config.include_paths[i].clone());
        i += 1;
        assert(texts(r@) =~= first + texts(config.include_paths@).take(i as int));
    }
    assert(texts(r@) =~= roots_of(config@));
    r
}

/// What is left behind every `~/` in front.
pub open spec fn untilde(s: Seq<char>) -> Seq<char>
    decreases s.len(),
{
    if s.len() >= 2 && s[0] == '~' && s[1] == '/' {
        untilde(s.skip(2))
    } else {
        s
    }
}

/// The home directory stands in front of this location.
pub open spec fn is_homely(s: Seq<char>) -> bool {
    s == seq!['~'] || (s.len() >= 2 && s[0] == '~' && s[1] == '/')
}

/// Where a location that was typed in lies.
#[derive(Debug, Clone, PartialEq, Eq)]
pub enum Location {
    /// Nothing was typed in.
    Blank,
    /// From the root.
    Absolute(String),
    /// From the current directory.
    Relative(String),
}

/// Where a location lies, as text.
#[verifier::ext_equal]
pub enum LocationView {
    Blank,
    Absolute(Seq<char>),
    Relative(Seq<char>),
}

impl View for Location {
    type V = LocationView;

    open spec fn view(&self) -> LocationView {
        match *self {
            Location::Blank => LocationView::Blank,
            Location::Absolute(path) => LocationView::Absolute(path@),
            Location::Relative(path) => LocationView::Relative(path@),
        }
    }
}

/// A location that was typed in stands behind the home directory, but there is none.
#[derive(Debug, Clone, Copy, PartialEq, Eq, Structural)]
pub struct NoHome;

/// Where a path starts.
pub open spec fn placed(path: Seq<char>) -> LocationView {
    if path.len() > 0 && path[0] == '/' {
        LocationView::Absolute(path)
    } else {
        LocationView::Relative(path)
    }
}

/// The location that a line stands for; none if it needs a home directory that is not there.
pub open spec fn location_of(raw: Seq<char>, home: Option<Seq<char>>) -> Option<LocationView> {
    let line = strip(raw, CharClass::WhiteSpace);
    if line.len() == 0 {
        Some(LocationView::Blank)
    } else if !is_homely(line) {
        Some(placed(line))
    } else {
        match home {
            None => None,
            Some(dir) => Some(
                placed(
                    if line == seq!['~'] {
                        dir
                    } else {
                        joined(dir, untilde(line))
                    },
                ),
            ),
        }
    }
}

/// Tells where a path starts.
fn place(path: String) -> (r: Location)
    ensures
        r@ == placed(path@),
{
    let chars = to_chars(path.as_str());
    if chars.len() > 0 && chars[0] == '/' {
        Location::Absolute(path)
    } else {
        Location::Relative(path)
    }
}

/// Drops every `~/` in front.
fn drop_tildes(s: &Vec<char>) -> (r: Vec<char>)
    ensures
        r@ == untilde(s@),
{
    let mut at: usize = 0;
    assert(s@.skip(0) =~= s@);
    while s.len() - at >= 2 && s[at] == '~' && s[at + 1] == '/'
        invariant
            at <= s@.len(),
            untilde(s@.skip(at as int)) == untilde(s@),
        decreases s@.len() - at,
    {
        assert(s@.skip(at as int).skip(2) =~= s@.skip(at + 2));
        at += 2;
    }
    assert(s@.subrange(at as int, s@.len() as int) =~= s@.skip(at as int));
    subvec(s, at, s.len())
}

/// Finds out which location a line stands for: an absolute path, a relative path, or one below
/// the home directory if it starts with `~`.
pub fn normalize_include_input(raw: &str, home: &Option<String>) -> (r: Result<Location, NoHome>)
    ensures
        match r {
            Ok(location) => location_of(raw@, optional(*home)) == Some(location@),
            Err(NoHome) => location_of(raw@, optional(*home)) is None,
        },
{
    let line = trim(&to_chars(raw), CharClass::WhiteSpace);
    if line.len() == 0 {
        return Ok(Location::Blank);
    }
    let tilde: Vec<char> = vec!['~'];
    assert(tilde@ =~= seq!['~']);
    let bare = same(&line, &tilde);
    if !bare && !(line.len() >= 2 && line[0] == '~' && line[1] == '/') {
        return Ok(place(from_chars(&line)));
    }
    match home {
        None => Err(NoHome),
        Some(dir) => {
            if bare {
                Ok(place(dir.clone()))
            } else {
                Ok(place(from_chars(&join(&to_chars(dir.as_str()), &drop_tildes(&line)))))
            }
        },
    }
}

/// A relative location as seen from the current directory.
pub fn from_directory(path: &str, current_dir: &str) -> (r: String)
    ensures
        r@ == joined(current_dir@, path@),
{
    below(current_dir, path)
}

} // verus!
