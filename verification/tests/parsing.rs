use freedesktop_sound::text::{join_path, split_chars, strip_prefix, trim};
use freedesktop_sound::theme::parse::{directories_of, inherits_of, sound_theme_section, IniItem};
use freedesktop_sound::theme::paths::ThemePath;
use freedesktop_sound::theme::Theme;
use freedesktop_sound::theme_display_name;

fn theme() -> Theme {
    Theme { path: ThemePath("/usr/share/sounds/oxygen".to_string()), index: "/usr/share/sounds/oxygen/index.theme".to_string() }
}

#[test]
fn inherits_splits_and_drops_freedesktop() {
    let file = "[Sound Theme]\nName=Ocean\nInherits=oxygen,freedesktop,deepin\n\n[stereo]\n";
    assert_eq!(theme().inherits(file), vec!["oxygen".to_string(), "deepin".to_string()]);
}

#[test]
fn inherits_keeps_empty_pieces_and_spaces() {
    let file = "[Sound Theme]\nInherits=a,, b\n";
    assert_eq!(theme().inherits(file), vec!["a".to_string(), "".to_string(), " b".to_string()]);
}

#[test]
fn inherits_only_reads_the_sound_theme_section() {
    let file = "[stereo]\nInherits=wrong\n[Sound Theme]\nName=x\n[other]\nInherits=later\n";
    assert!(theme().inherits(file).is_empty());
}

#[test]
fn inherits_takes_the_first_key() {
    let file = "[Sound Theme]\nInherits=first\nInherits=second\n";
    assert_eq!(theme().inherits(file), vec!["first".to_string()]);
}

#[test]
fn inherits_of_nothing_is_empty() {
    assert!(theme().inherits("").is_empty());
    assert!(theme().inherits("[Sound Theme]\nName=x\n").is_empty());
}

#[test]
fn directories_leave_out_the_header_section() {
    let file = "[Sound Theme]\nName=x\nDirectories=stereo,5.1\n\n[stereo]\nOutputProfile=stereo\n[5.1]\n";
    let dirs: Vec<String> = theme().get_all_directories(file).into_iter().map(|d| d.name).collect();
    assert_eq!(dirs, vec!["stereo".to_string(), "5.1".to_string()]);
}

#[test]
fn directories_keep_padding() {
    let dirs: Vec<String> = theme().get_all_directories("[ stereo ]\n").into_iter().map(|d| d.name).collect();
    assert_eq!(dirs, vec![" stereo ".to_string()]);
}

#[test]
fn section_items_by_hand() {
    let items = vec![
        IniItem::SectionEnd,
        IniItem::Section("Sound Theme".to_string()),
        IniItem::Property("Name".to_string(), Some("x".to_string())),
        IniItem::Property("Bare".to_string(), None),
        IniItem::Comment("c".to_string()),
        IniItem::Property("Inherits".to_string(), Some("p,q".to_string())),
        IniItem::SectionEnd,
        IniItem::Section("stereo".to_string()),
        IniItem::Property("Inherits".to_string(), Some("no".to_string())),
    ];
    let props = sound_theme_section(&items);
    assert_eq!(props, vec![("Name".to_string(), "x".to_string()), ("Inherits".to_string(), "p,q".to_string())]);
    assert_eq!(inherits_of(&items), vec!["p".to_string(), "q".to_string()]);
    let dirs: Vec<String> = directories_of(&items).into_iter().map(|d| d.name).collect();
    assert_eq!(dirs, vec!["stereo".to_string()]);
}

#[test]
fn join_adds_one_separator() {
    assert_eq!(join_path("/a/b", "c"), "/a/b/c");
    assert_eq!(join_path("/a/b/", "c"), "/a/b/c");
    assert_eq!(join_path("", "c"), "c");
    assert_eq!(join_path("/a", "/etc/x"), "/etc/x");
    assert_eq!(join_path("/a", ""), "/a/");
}

#[test]
fn split_like_str_split() {
    assert_eq!(split_chars("a,b", ','), vec!["a".to_string(), "b".to_string()]);
    assert_eq!(split_chars("", ','), vec!["".to_string()]);
    assert_eq!(split_chars("a,", ','), vec!["a".to_string(), "".to_string()]);
    assert_eq!(split_chars("äb,ö", ','), vec!["äb".to_string(), "ö".to_string()]);
}

#[test]
fn trim_like_str_trim() {
    assert_eq!(trim("  Oxygen \r\n"), "Oxygen");
    assert_eq!(trim("\u{3000}x y\u{a0}"), "x y");
    assert_eq!(trim(" \t "), "");
    assert_eq!(strip_prefix("Name=Ocean", "Name="), Some("Ocean".to_string()));
    assert_eq!(strip_prefix("Nam", "Name="), None);
    assert_eq!(strip_prefix("name=Ocean", "Name="), None);
}

#[test]
fn display_name_is_first_name_line() {
    let lines = vec![
        "[Sound Theme]\n".to_string(),
        "Comment=Name=not this\n".to_string(),
        "Name= Ocean \n".to_string(),
        "Name=Other\n".to_string(),
    ];
    assert_eq!(theme_display_name(&lines), Some("Ocean".to_string()));
    assert_eq!(theme_display_name(&vec!["[Sound Theme]\n".to_string()]), None);
}
