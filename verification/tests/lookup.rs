use std::path::PathBuf;

use freedesktop_sound::cache::Cache;
use freedesktop_sound::files::{ExistingFiles, IndexFiles};
use freedesktop_sound::theme::paths::sound_theme_base_paths;
use freedesktop_sound::theme::registry::SoundThemes;
use freedesktop_sound::theme::{get_all_themes, Theme, ThemeDirEntry};
use freedesktop_sound::{list_theme_names, lookup, LookupBuilder};

/// A file system as a lookup sees it: the theme directories, the index files
/// and every other file.
struct Installation {
    themes: SoundThemes,
    indexes: IndexFiles,
    files: Vec<String>,
}

const FREEDESKTOP_INDEX: &str = "[Sound Theme]\nName=Default\nComment=Default sound theme\nDirectories=stereo\n\n[stereo]\nOutputProfile=stereo\n";
const OXYGEN_INDEX: &str = "[Sound Theme]\nName=Oxygen\nComment=Oxygen sound theme\nInherits=freedesktop\nDirectories=stereo\n\n[stereo]\nOutputProfile=stereo\n";
const DEEPIN_INDEX: &str = "[Sound Theme]\nName=Deepin\nInherits=freedesktop\nDirectories=stereo\n\n[stereo]\nOutputProfile=stereo\n";

fn dir_entry(name: &str, path: &str, is_dir: bool, has_index: bool) -> ThemeDirEntry {
    ThemeDirEntry { name: name.to_string(), path: path.to_string(), is_dir, has_index }
}

/// The themes found under `/usr/share/sounds` on a usual installation.
fn installation() -> Installation {
    let base = "/usr/share/sounds";
    let entries = vec![
        dir_entry("deepin", &format!("{base}/deepin"), true, true),
        dir_entry("freedesktop", &format!("{base}/freedesktop"), true, true),
        dir_entry("oxygen", &format!("{base}/oxygen"), true, true),
        dir_entry("README", &format!("{base}/README"), false, false),
    ];
    let themes = get_all_themes(&entries);
    let mut indexes = IndexFiles::new();
    indexes.insert(&format!("{base}/freedesktop/index.theme"), FREEDESKTOP_INDEX);
    indexes.insert(&format!("{base}/oxygen/index.theme"), OXYGEN_INDEX);
    indexes.insert(&format!("{base}/deepin/index.theme"), DEEPIN_INDEX);
    let files = vec![
        format!("{base}/freedesktop/stereo/bell.oga"),
        format!("{base}/freedesktop/stereo/complete.oga"),
        format!("{base}/freedesktop/stereo/message.oga"),
        format!("{base}/oxygen/stereo/bell.ogg"),
        format!("{base}/oxygen/stereo/message.ogg"),
        format!("{base}/deepin/stereo/dialog-error.wav"),
    ];
    Installation { themes, indexes, files }
}

/// Runs a lookup as an application does: it finds out which of the files
/// that the lookup tries exist, then lets the lookup choose.
fn run(builder: LookupBuilder, inst: &Installation, cache: &mut Cache) -> Option<PathBuf> {
    let mut existing = ExistingFiles::new();
    if let Some(paths) = builder.search_paths(&inst.themes, &inst.indexes) {
        for p in paths {
            if inst.files.contains(&p) {
                existing.add(&p);
            }
        }
    }
    builder.find(&inst.themes, &inst.indexes, &existing, cache).map(PathBuf::from)
}

fn get_base_path() -> PathBuf {
    PathBuf::from("/usr/share/sounds")
}

#[test]
fn test_default_lookup() {
    let inst = installation();
    let mut cache = Cache::new();
    let bell = run(lookup("bell"), &inst, &mut cache);
    let expected_path = get_base_path().join("freedesktop/stereo/bell.oga");
    assert!(bell.is_some_and(|b| b == expected_path));
}

#[test]
fn test_theme_specific_lookup() {
    let inst = installation();
    let mut cache = Cache::new();
    let bell = run(lookup("bell").with_theme("oxygen"), &inst, &mut cache);
    let expected_path = get_base_path().join("oxygen/stereo/bell.ogg");
    assert!(bell.is_some_and(|b| b == expected_path));
}

#[test]
fn test_nonexistent_sound() {
    let inst = installation();
    let mut cache = Cache::new();
    let result = run(lookup("nonexistent_sound"), &inst, &mut cache);
    assert!(result.is_none());
}

#[test]
fn test_nonexistent_theme() {
    let inst = installation();
    let mut cache = Cache::new();
    let result = run(lookup("bell").with_theme("nonexistent_theme"), &inst, &mut cache);
    let expected_path = get_base_path().join("freedesktop/stereo/bell.oga");
    assert!(result.is_some_and(|p| p == expected_path));
}

#[test]
fn test_list_themes() {
    let inst = installation();
    let mut files = Vec::new();
    for i in 0..inst.themes.len() {
        let (_, themes) = inst.themes.entry(i);
        for theme in themes {
            let text = inst.indexes.text_of(&theme.index);
            let lines: Vec<String> = text.split_inclusive('\n').map(String::from).collect();
            files.push(lines);
        }
    }
    let themes = list_theme_names(&files);
    assert!(!themes.is_empty());
    assert!(themes.contains(&"Default".to_string()));
    assert!(themes.contains(&"Oxygen".to_string()));
    assert!(themes.contains(&"Deepin".to_string()));
}

#[test]
fn should_get_all_themes() {
    let themes = installation().themes;
    assert!(themes.contains_key("freedesktop"));
}

#[test]
fn should_get_theme_paths_ordered() {
    let data_dirs = vec!["/usr/local/share".to_string(), "/usr/share".to_string()];
    let base_paths = sound_theme_base_paths(&data_dirs);
    assert!(!base_paths.is_empty())
}

#[test]
fn should_read_theme_index() {
    let themes = installation().themes;
    let mut all: Vec<&Theme> = Vec::new();
    for i in 0..themes.len() {
        let (_, ts) = themes.entry(i);
        all.extend(ts.iter());
    }
    assert!(!all.is_empty());
}
