use quickfind::config::{
    config_file, data_dir, database_file, default_watch_pending_ram_cap_mb, from_directory,
    index_roots, normalize_include_input, Config, Location, NoHome,
};
use quickfind::onboarding::{Cap, Locations, Onboarding};
use quickfind::watcher::ignore::is_ignored;
use quickfind::watcher::sync::Watch;

fn home() -> Option<String> {
    Some("/home/me".to_string())
}

#[test]
fn the_default_configuration() {
    let config = Config::with_home(&home());
    assert_eq!(
        config.include_paths,
        ["/home/me/Documents", "/home/me/Projects", "/home/me/Code", "/home/me/Desktop"]
    );
    assert_eq!(config.ignore.len(), 31);
    assert_eq!(config.ignore[0], "**/.*");
    assert_eq!(config.ignore[30], "**/coverage/**");
    assert_eq!(config.depth, 10);
    assert_eq!(config.highlight_color, None);
    assert_eq!(config.editor, None);
    assert_eq!(config.watch_pending_ram_cap_mb, 200);
    assert_eq!(default_watch_pending_ram_cap_mb(), 200);
    assert!(Config::with_home(&None).include_paths.is_empty());
}

#[test]
fn the_default_patterns_compile_and_hide_hidden_paths() {
    match Watch::start(&Config::with_home(&home())) {
        Ok((watch, _)) => {
            assert_eq!(watch.ignore_patterns.len(), 31);
            for path in ["/home/me/Code/.git/config", "/home/me/Code/x/target/debug/y"] {
                assert!(is_ignored(path, &watch.include_roots, &watch.ignore_patterns));
            }
            assert!(!is_ignored(
                "/home/me/Code/x/src/main.rs",
                &watch.include_roots,
                &watch.ignore_patterns
            ));
        }
        Err(e) => panic!("the patterns should compile: {}", e.msg),
    }
}

#[test]
fn everything_is_kept_below_the_home_directory() {
    assert_eq!(data_dir("/home/me"), "/home/me/.quickfind");
    assert_eq!(config_file("/home/me/"), "/home/me/.quickfind/conf.toml");
    assert_eq!(database_file("/"), "/.quickfind/db.sqlite");
}

#[test]
fn without_locations_the_current_directory_is_indexed() {
    let mut config = Config::with_home(&None);
    assert_eq!(index_roots(&config), ["."]);
    config.include_paths = vec!["/a".to_string(), "/b".to_string()];
    assert_eq!(index_roots(&config), ["/a", "/b"]);
}

#[test]
fn locations_are_read_as_they_are_typed() {
    let absolute = |path: &str| Ok(Location::Absolute(path.to_string()));
    let relative = |path: &str| Ok(Location::Relative(path.to_string()));
    assert_eq!(normalize_include_input("  \t", &home()), Ok(Location::Blank));
    assert_eq!(normalize_include_input(" /srv/x ", &home()), absolute("/srv/x"));
    assert_eq!(normalize_include_input("x/y", &home()), relative("x/y"));
    assert_eq!(normalize_include_input("~", &home()), absolute("/home/me"));
    assert_eq!(normalize_include_input("~/x", &home()), absolute("/home/me/x"));
    assert_eq!(normalize_include_input("~/~/x", &home()), absolute("/home/me/x"));
    assert_eq!(normalize_include_input("~//x", &home()), absolute("/x"));
    assert_eq!(normalize_include_input("~me/x", &home()), relative("~me/x"));
    assert_eq!(normalize_include_input("~/x", &None), Err(NoHome));
    assert_eq!(normalize_include_input("~", &None), Err(NoHome));
    assert_eq!(normalize_include_input("x", &None), relative("x"));
    assert_eq!(normalize_include_input("~", &Some("rel".to_string())), relative("rel"));
    assert_eq!(from_directory("x/y", "/cwd"), "/cwd/x/y");
}

#[test]
fn typed_locations_replace_those_that_were_there() {
    let mut session = Onboarding::new(Config::with_home(&home()));
    assert_eq!(session.read_location("/a", &home()), Ok(Location::Absolute("/a".to_string())));
    for path in ["/a", "/b", "/a", "", "/b"] {
        session.add_location(path.to_string());
    }
    assert_eq!(session.read_location(" ", &home()), Ok(Location::Blank));
    assert_eq!(session.finish_locations(), Locations::Replaced);
    assert_eq!(session.config.include_paths, ["/a", "/b"]);
}

#[test]
fn typed_locations_keep_their_order() {
    let mut session = Onboarding::new(Config::with_home(&home()));
    for path in ["/z", "", "/m", "/z", "/a", "/m"] {
        session.add_location(path.to_string());
    }
    assert_eq!(session.finish_locations(), Locations::Replaced);
    assert_eq!(session.config.include_paths, ["/z", "/m", "/a"]);
}

#[test]
fn no_typed_location_keeps_those_that_were_there() {
    let mut session = Onboarding::new(Config::with_home(&home()));
    assert_eq!(session.finish_locations(), Locations::Kept);
    assert_eq!(session.config.include_paths.len(), 4);
}

#[test]
fn no_location_at_all_falls_back_to_the_current_directory() {
    let mut session = Onboarding::new(Config::with_home(&None));
    assert_eq!(session.finish_locations(), Locations::Missing);
    session.use_fallback("/cwd".to_string());
    assert_eq!(session.config.include_paths, ["/cwd"]);
}

#[test]
fn the_memory_limit_is_a_number_above_zero() {
    let mut session = Onboarding::new(Config::with_home(&home()));
    assert_eq!(session.set_cap("\n"), Cap::Kept);
    assert_eq!(session.set_cap("0"), Cap::Invalid);
    assert_eq!(session.set_cap("-5"), Cap::Invalid);
    assert_eq!(session.set_cap("lots"), Cap::Invalid);
    assert_eq!(session.set_cap("99999999999999999999999"), Cap::Invalid);
    assert_eq!(session.config.watch_pending_ram_cap_mb, 200);
    assert_eq!(session.set_cap(" +512 \n"), Cap::Changed);
    assert_eq!(session.config.watch_pending_ram_cap_mb, 512);
}

#[test]
fn the_default_configuration_lies_below_the_home_directory() {
    let config = Config::default();
    match home::home_dir().and_then(|dir| dir.to_str().map(|path| path.to_string())) {
        Some(dir) => assert_eq!(config.include_paths, Config::with_home(&Some(dir)).include_paths),
        None => assert!(config.include_paths.is_empty()),
    }
    assert_eq!(config.ignore, Config::with_home(&None).ignore);
}
