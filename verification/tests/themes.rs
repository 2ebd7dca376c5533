use freedesktop_sound::cache::{Cache, CacheEntry};
use freedesktop_sound::files::{ExistingFiles, IndexFiles, TextMap};
use freedesktop_sound::theme::paths::{sound_theme_base_paths, ThemeError, ThemePath};
use freedesktop_sound::theme::{get_all_themes, try_build_sound_path, Theme, ThemeDirEntry};
use freedesktop_sound::{list_theme_names, lookup};

fn dir_entry(name: &str, path: &str, is_dir: bool, has_index: bool) -> ThemeDirEntry {
    ThemeDirEntry { name: name.to_string(), path: path.to_string(), is_dir, has_index }
}

#[test]
fn theme_index_path_and_error() {
    let p = ThemePath("/usr/share/sounds/oxygen".to_string());
    assert_eq!(p.index(true).unwrap(), "/usr/share/sounds/oxygen/index.theme");
    match p.index(false) {
        Err(ThemeError::ThemeIndexNotFound(i)) => assert_eq!(i, "/usr/share/sounds/oxygen/index.theme"),
        Ok(_) => panic!("no index file, yet an index"),
    }
}

#[test]
fn from_path_cases() {
    let fallback = "/usr/share/sounds/x/index.theme".to_string();
    assert!(Theme::from_path("/d", true, false, None).is_none());
    assert!(Theme::from_path("/d", false, true, None).is_none());
    let own = Theme::from_path("/d", true, true, None).unwrap();
    assert_eq!(own.index, "/d/index.theme");
    assert_eq!(own.path.0, "/d");
    let shared = Theme::from_path("/d", false, true, Some(&fallback)).unwrap();
    assert_eq!(shared.index, fallback);
    let preferred = Theme::from_path("/d", true, true, Some(&fallback)).unwrap();
    assert_eq!(preferred.index, fallback);
}

#[test]
fn scan_shares_indices_between_bases() {
    // The user's copy of `oxygen` has no index file; the system's has. The
    // user's comes first in the scan and is taken up on the second pass.
    let entries = vec![
        dir_entry("oxygen", "/home/u/.local/share/sounds/oxygen", true, false),
        dir_entry("notes.txt", "/home/u/.local/share/sounds/notes.txt", false, false),
        dir_entry("oxygen", "/usr/share/sounds/oxygen", true, true),
        dir_entry("empty", "/usr/share/sounds/empty", true, false),
        dir_entry("freedesktop", "/usr/share/sounds/freedesktop", true, true),
    ];
    let themes = get_all_themes(&entries);
    assert_eq!(themes.len(), 2);
    assert!(!themes.contains_key("empty"));
    let oxygen = themes.get("oxygen").unwrap();
    assert_eq!(oxygen.len(), 2);
    assert_eq!(oxygen[0].path.0, "/usr/share/sounds/oxygen");
    assert_eq!(oxygen[1].path.0, "/home/u/.local/share/sounds/oxygen");
    assert_eq!(oxygen[1].index, "/usr/share/sounds/oxygen/index.theme");
    let (first, _) = themes.entry(0);
    assert_eq!(first, "freedesktop");
}

#[test]
fn scan_later_directories_use_first_index() {
    let entries = vec![
        dir_entry("ocean", "/a/ocean", true, true),
        dir_entry("ocean", "/b/ocean", true, true),
    ];
    let themes = get_all_themes(&entries);
    let ocean = themes.get("ocean").unwrap();
    assert_eq!(ocean[1].index, "/a/ocean/index.theme");
}

#[test]
fn base_paths_under_data_dirs() {
    let dirs = vec!["/usr/local/share".to_string(), "/usr/share/".to_string()];
    assert_eq!(sound_theme_base_paths(&dirs), vec!["/usr/local/share/sounds".to_string(), "/usr/share/sounds".to_string()]);
    assert!(sound_theme_base_paths(&Vec::new()).is_empty());
}

#[test]
fn disabled_file_wins() {
    let mut files = ExistingFiles::new();
    files.add("/t/stereo/bell.wav");
    assert_eq!(try_build_sound_path("bell", "/t/stereo", &files), Some("/t/stereo/bell.wav".to_string()));
    files.add("/t/stereo/bell.ogg");
    assert_eq!(try_build_sound_path("bell", "/t/stereo", &files), Some("/t/stereo/bell.ogg".to_string()));
    files.add("/t/stereo/bell.oga");
    assert_eq!(try_build_sound_path("bell", "/t/stereo", &files), Some("/t/stereo/bell.oga".to_string()));
    files.add("/t/stereo/bell.disabled");
    assert_eq!(try_build_sound_path("bell", "/t/stereo", &files), Some("/t/stereo/bell.disabled".to_string()));
    assert_eq!(try_build_sound_path("bells", "/t/stereo", &files), None);
}

#[test]
fn cache_records_and_reads() {
    let mut cache = Cache::new();
    assert_eq!(cache.get("oxygen", "bell"), CacheEntry::Unknown);
    cache.insert("oxygen", "bell", &Some("/x/bell.ogg".to_string()));
    cache.insert("oxygen", "message", &None);
    assert_eq!(cache.get("oxygen", "bell"), CacheEntry::Found("/x/bell.ogg".to_string()));
    assert_eq!(cache.get("oxygen", "message"), CacheEntry::NotFound);
    assert_eq!(cache.get("freedesktop", "bell"), CacheEntry::Unknown);
    cache.insert("oxygen", "bell", &None);
    assert_eq!(cache.get("oxygen", "bell"), CacheEntry::NotFound);
    let fresh: Cache = Default::default();
    assert_eq!(fresh.get("oxygen", "bell"), CacheEntry::Unknown);
}

#[test]
fn text_map_keeps_last_value() {
    let mut m = TextMap::new();
    assert_eq!(m.get(&"k".to_string()), None);
    assert_eq!(m.text_of(&"k".to_string()), "");
    m.insert("k", "one");
    m.insert("k", "two");
    assert_eq!(m.get(&"k".to_string()), Some("two".to_string()));
}

/// Two themes: `ocean` inherits from `oxygen`; only `freedesktop` has `login`.
fn setup() -> (freedesktop_sound::theme::registry::SoundThemes, IndexFiles) {
    let entries = vec![
        dir_entry("freedesktop", "/s/freedesktop", true, true),
        dir_entry("ocean", "/s/ocean", true, true),
        dir_entry("oxygen", "/s/oxygen", true, true),
    ];
    let themes = get_all_themes(&entries);
    let mut indexes = IndexFiles::new();
    indexes.insert("/s/freedesktop/index.theme", "[Sound Theme]\nName=Default\n[stereo]\n");
    indexes.insert("/s/ocean/index.theme", "[Sound Theme]\nName=Ocean\nInherits=oxygen,oxygen,missing\n[stereo]\n[5.1]\n");
    indexes.insert("/s/oxygen/index.theme", "[Sound Theme]\nName=Oxygen\n[stereo]\n");
    (themes, indexes)
}

#[test]
fn search_order() {
    let (themes, indexes) = setup();
    let paths = lookup("bell").with_theme("ocean").search_paths(&themes, &indexes).unwrap();
    let expected: Vec<String> = [
        "/s/ocean/stereo/bell.disabled", "/s/ocean/stereo/bell.oga", "/s/ocean/stereo/bell.ogg", "/s/ocean/stereo/bell.wav",
        "/s/ocean/5.1/bell.disabled", "/s/ocean/5.1/bell.oga", "/s/ocean/5.1/bell.ogg", "/s/ocean/5.1/bell.wav",
        "/s/oxygen/stereo/bell.disabled", "/s/oxygen/stereo/bell.oga", "/s/oxygen/stereo/bell.ogg", "/s/oxygen/stereo/bell.wav",
        "/s/freedesktop/stereo/bell.disabled", "/s/freedesktop/stereo/bell.oga", "/s/freedesktop/stereo/bell.ogg", "/s/freedesktop/stereo/bell.wav",
    ].iter().map(|s| s.to_string()).collect();
    assert_eq!(paths, expected);
    let none = freedesktop_sound::theme::registry::SoundThemes::new();
    assert!(lookup("bell").search_paths(&none, &indexes).is_none());
}

#[test]
fn lookup_through_parents_and_fallback() {
    let (themes, indexes) = setup();
    let mut cache = Cache::new();
    let mut files = ExistingFiles::new();
    files.add("/s/oxygen/stereo/bell.ogg");
    files.add("/s/freedesktop/stereo/login.oga");
    files.add("/s/freedesktop/stereo/bell.oga");
    assert_eq!(lookup("bell").with_theme("ocean").find(&themes, &indexes, &files, &mut cache), Some("/s/oxygen/stereo/bell.ogg".to_string()));
    assert_eq!(lookup("login").with_theme("ocean").find(&themes, &indexes, &files, &mut cache), Some("/s/freedesktop/stereo/login.oga".to_string()));
    assert_eq!(lookup("bell").find(&themes, &indexes, &files, &mut cache), Some("/s/freedesktop/stereo/bell.oga".to_string()));
    assert_eq!(lookup("gone").with_theme("ocean").find(&themes, &indexes, &files, &mut cache), None);
    // Without the cache, nothing is recorded.
    assert_eq!(cache.get("ocean", "bell"), CacheEntry::Unknown);
}

#[test]
fn cache_answers_found_files_only() {
    let (themes, indexes) = setup();
    let mut cache = Cache::new();
    let mut files = ExistingFiles::new();
    files.add("/s/oxygen/stereo/bell.ogg");
    let first = lookup("bell").with_theme("ocean").with_cache().find(&themes, &indexes, &files, &mut cache);
    assert_eq!(first, Some("/s/oxygen/stereo/bell.ogg".to_string()));
    assert_eq!(cache.get("ocean", "bell"), CacheEntry::Found("/s/oxygen/stereo/bell.ogg".to_string()));
    // A second lookup answers from the cache, whatever exists now.
    let nothing = ExistingFiles::new();
    let second = lookup("bell").with_theme("ocean").with_cache().find(&themes, &indexes, &nothing, &mut cache);
    assert_eq!(second, first);
    // A miss is recorded, but does not cut the next lookup short.
    assert_eq!(lookup("login").with_theme("ocean").with_cache().find(&themes, &indexes, &nothing, &mut cache), None);
    assert_eq!(cache.get("ocean", "login"), CacheEntry::NotFound);
    let mut now = ExistingFiles::new();
    now.add("/s/ocean/5.1/login.wav");
    assert_eq!(
        lookup("login").with_theme("ocean").with_cache().find(&themes, &indexes, &now, &mut cache),
        Some("/s/ocean/5.1/login.wav".to_string())
    );
}

#[test]
fn nothing_is_recorded_without_themes() {
    let none = freedesktop_sound::theme::registry::SoundThemes::new();
    let indexes = IndexFiles::new();
    let mut cache = Cache::new();
    let files = ExistingFiles::new();
    assert_eq!(lookup("bell").with_cache().find(&none, &indexes, &files, &mut cache), None);
    assert_eq!(cache.get("freedesktop", "bell"), CacheEntry::Unknown);
}

#[test]
fn unknown_theme_searches_freedesktop() {
    let (themes, indexes) = setup();
    let a = lookup("bell").with_theme("nope").search_paths(&themes, &indexes);
    let b = lookup("bell").search_paths(&themes, &indexes);
    assert_eq!(a, b);
}

#[test]
fn listing_dedups_neighbours() {
    let files = vec![
        vec!["Name=A\n".to_string()],
        vec!["Name=A\n".to_string()],
        vec![],
        vec!["Name=B\n".to_string()],
        vec!["Name=A\n".to_string()],
    ];
    assert_eq!(list_theme_names(&files), vec!["A".to_string(), "B".to_string(), "A".to_string()]);
}

/// `a` inherits from `b`, `b` from `c`, and `c` from `a` again.
fn chain() -> (freedesktop_sound::theme::registry::SoundThemes, IndexFiles) {
    let entries = vec![
        dir_entry("a", "/s/a", true, true),
        dir_entry("b", "/s/b", true, true),
        dir_entry("c", "/s/c", true, true),
        dir_entry("freedesktop", "/s/freedesktop", true, true),
    ];
    let themes = get_all_themes(&entries);
    let mut indexes = IndexFiles::new();
    indexes.insert("/s/a/index.theme", "[Sound Theme]\nInherits=b\n[stereo]\n");
    indexes.insert("/s/b/index.theme", "[Sound Theme]\nInherits=c\n[stereo]\n");
    indexes.insert("/s/c/index.theme", "[Sound Theme]\nInherits=a,b\n[stereo]\n");
    indexes.insert("/s/freedesktop/index.theme", "[Sound Theme]\n[stereo]\n");
    (themes, indexes)
}

#[test]
fn grandparent_is_searched() {
    let (themes, indexes) = chain();
    let mut cache = Cache::new();
    let mut files = ExistingFiles::new();
    files.add("/s/c/stereo/bell.wav");
    files.add("/s/freedesktop/stereo/bell.oga");
    assert_eq!(
        lookup("bell").with_theme("a").find(&themes, &indexes, &files, &mut cache),
        Some("/s/c/stereo/bell.wav".to_string())
    );
}

#[test]
fn inheritance_cycle_ends() {
    let (themes, indexes) = chain();
    let paths = lookup("bell").with_theme("a").search_paths(&themes, &indexes).unwrap();
    let dirs: Vec<&str> = paths.iter().step_by(4).map(|p| p.as_str()).collect();
    assert_eq!(
        dirs,
        vec![
            "/s/a/stereo/bell.disabled",
            "/s/b/stereo/bell.disabled",
            "/s/c/stereo/bell.disabled",
            "/s/freedesktop/stereo/bell.disabled",
        ]
    );
    let mut cache = Cache::new();
    let files = ExistingFiles::new();
    assert_eq!(lookup("bell").with_theme("a").find(&themes, &indexes, &files, &mut cache), None);
}

#[test]
fn shared_index_is_the_first() {
    let entries = vec![
        dir_entry("ocean", "/a/ocean", true, false),
        dir_entry("ocean", "/b/ocean", true, true),
        dir_entry("ocean", "/c/ocean", true, true),
    ];
    let themes = get_all_themes(&entries);
    let ocean = themes.get("ocean").unwrap();
    assert_eq!(ocean.len(), 3);
    assert_eq!(ocean[0].path.0, "/b/ocean");
    assert_eq!(ocean[1].path.0, "/c/ocean");
    assert_eq!(ocean[2].path.0, "/a/ocean");
    for t in ocean {
        assert_eq!(t.index, "/b/ocean/index.theme");
    }
}
