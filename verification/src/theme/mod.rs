//! Sound themes: where their files lie and which of them a theme holds.
use vstd::prelude::*;

pub mod parse;
pub mod paths;
pub mod registry;

use crate::files::{first_existing, index_text, lemma_first_existing_concat, ExistingFiles, IndexFiles, TextMap};
use crate::text::{join_path, joined};
use parse::{directory_names, ini_items};
use paths::{index_path_of, ThemePath};
use registry::{add_theme, SoundThemes};

verus! {

/// An installed sound theme: its directory and its index file.
#[derive(Debug)]
pub struct Theme {
    pub path: ThemePath,
    pub index: String,
}

/// The mathematical value of a [`Theme`].
pub struct ThemeView {
    pub path: Seq<char>,
    pub index: Seq<char>,
}

impl View for Theme {
    type V = ThemeView;

    open spec fn view(&self) -> ThemeView {
        ThemeView { path: self.path.0@, index: self.index@ }
    }
}

/// The files that stand for the sound `name` in the directory `dir`, in the
/// order in which they are tried: a `.disabled` file first, then the `.oga`,
/// `.ogg` and `.wav` files.
pub open spec fn sound_files(dir: Seq<char>, name: Seq<char>) -> Seq<Seq<char>> {
    seq![
        joined(dir, name + ".disabled"@),
        joined(dir, name + ".oga"@),
        joined(dir, name + ".ogg"@),
        joined(dir, name + ".wav"@),
    ]
}

/// The files tried for the sound `name` in the directories `dirs` of the
/// theme at `path`, directory by directory.
pub open spec fn files_in_dirs(path: Seq<char>, dirs: Seq<Seq<char>>, name: Seq<char>) -> Seq<Seq<char>>
    decreases dirs.len(),
{
    if dirs.len() == 0 {
        Seq::empty()
    } else {
        files_in_dirs(path, dirs.drop_last(), name) + sound_files(joined(path, dirs.last()), name)
    }
}

/// The files tried for the sound `name` in the theme `theme`, whose index
/// file holds `text`.
pub open spec fn theme_files(theme: ThemeView, text: Seq<char>, name: Seq<char>) -> Seq<Seq<char>> {
    files_in_dirs(theme.path, directory_names(ini_items(text)), name)
}

/// The files tried for the sound `name` in the themes `themes`, theme by
/// theme, with the texts of the index files in `texts`.
pub open spec fn themes_files(
    themes: Seq<ThemeView>,
    texts: Map<Seq<char>, Seq<char>>,
    name: Seq<char>,
) -> Seq<Seq<char>>
    decreases themes.len(),
{
    if themes.len() == 0 {
        Seq::empty()
    } else {
        themes_files(themes.drop_last(), texts, name) + theme_files(
            themes.last(),
            index_text(texts, themes.last().index),
            name,
        )
    }
}

/// The file that stands for `name` with extension `ext` in `dir`.
fn sound_file(name: &str, dir: &str, ext: &str) -> (r: String)
    ensures
        r@ == joined(dir@, name@ + ext@),
{
    let mut file = name.to_owned();
    file.append(ext);
    join_path(dir, file.as_str())
}

/// The `.oga` file of the sound `name` in `path`, where it exists.
pub fn try_build_oga(name: &str, path: &str, files: &ExistingFiles) -> (r: Option<String>)
    ensures
        crate::text::opt_view(r) == (if files.paths().contains(joined(path@, name@ + ".oga"@)) {
            Some(joined(path@, name@ + ".oga"@))
        } else {
            None
        }),
{
    let oga = sound_file(name, path, ".oga");
    if files.contains(&oga) {
        Some(oga)
    } else {
        None
    }
}

/// The `.ogg` file of the sound `name` in `path`, where it exists.
pub fn try_build_ogg(name: &str, path: &str, files: &ExistingFiles) -> (r: Option<String>)
    ensures
        crate::text::opt_view(r) == (if files.paths().contains(joined(path@, name@ + ".ogg"@)) {
            Some(joined(path@, name@ + ".ogg"@))
        } else {
            None
        }),
{
    let ogg = sound_file(name, path, ".ogg");
    if files.contains(&ogg) {
        Some(ogg)
    } else {
        None
    }
}

/// The `.disabled` file of the sound `name` in `path`, where it exists.
pub fn try_build_disabled(name: &str, path: &str, files: &ExistingFiles) -> (r: Option<String>)
    ensures
        crate::text::opt_view(r) == (if files.paths().contains(joined(path@, name@ + ".disabled"@)) {
            Some(joined(path@, name@ + ".disabled"@))
        } else {
            None
        }),
{
    let disabled = sound_file(name, path, ".disabled");
    if files.contains(&disabled) {
        Some(disabled)
    } else {
        None
    }
}

/// The `.wav` file of the sound `name` in `path`, where it exists.
pub fn try_build_wav(name: &str, path: &str, files: &ExistingFiles) -> (r: Option<String>)
    ensures
        crate::text::opt_view(r) == (if files.paths().contains(joined(path@, name@ + ".wav"@)) {
            Some(joined(path@, name@ + ".wav"@))
        } else {
            None
        }),
{
    let wav = sound_file(name, path, ".wav");
    if files.contains(&wav) {
        Some(wav)
    } else {
        None
    }
}

/// The first existing file of the sound `name` in the directory `path`:
/// a `.disabled` file, else `.oga`, else `.ogg`, else `.wav`.
pub fn try_build_sound_path(name: &str, path: &str, files: &ExistingFiles) -> (r: Option<String>)
    ensures
        crate::text::opt_view(r) == first_existing(files.paths(), sound_files(path@, name@)),
{
    let ghost c = sound_files(path@, name@);
    proof {
        reveal_with_fuel(first_existing, 5);
        assert(c.drop_first() =~= seq![c[1], c[2], c[3]]);
        assert(c.drop_first().drop_first() =~= seq![c[2], c[3]]);
        assert(c.drop_first().drop_first().drop_first() =~= seq![c[3]]);
        assert(c.drop_first().drop_first().drop_first().drop_first() =~= Seq::<Seq<char>>::empty());
    }
    match try_build_disabled(name, path, files) {
        Some(p) => return Some(p),
        None => {},
    }
    match try_build_oga(name, path, files) {
        Some(p) => return Some(p),
        None => {},
    }
    match try_build_ogg(name, path, files) {
        Some(p) => return Some(p),
        None => {},
    }
    try_build_wav(name, path, files)
}

impl Theme {
    /// The directory of the theme.
    fn path(&self) -> (r: &String)
        ensures
            r@ == self.path.0@,
    {
        &self.path.0
    }

    /// Every file tried for the sound `name` in the directories that the index
    /// file text `file` names, in order.
    pub fn sound_candidates(&self, file: &str, name: &str) -> (r: Vec<String>)
        ensures
            crate::text::views(r@) == theme_files(self@, file@, name@),
    {
        let dirs = self.get_all_directories(file);
        let ghost names = directory_names(ini_items(file@));
        let mut r: Vec<String> = Vec::new();
        let mut i: usize = 0;
        assert(names.take(0) =~= Seq::<Seq<char>>::empty());
        assert(crate::text::views(r@) =~= Seq::<Seq<char>>::empty());
        while i < dirs.len()
            invariant
                i <= dirs@.len(),
                dirs@.map_values(|d: parse::Directory| d.name@) == names,
                names == directory_names(ini_items(file@)),
                crate::text::views(r@) == files_in_dirs(self.path.0@, names.take(i as int), name@),
            decreases dirs@.len() - i,
        {
            let directory = join_path(self.path().as_str(), dirs[i].name.as_str());
            proof {
                assert(names.take(i + 1).drop_last() == names.take(i as int));
                assert(names.take(i + 1).last() == dirs@[i as int].name@);
            }
            let ghost before = crate::text::views(r@);
            r.push(sound_file(name, directory.as_str(), ".disabled"));
            r.push(sound_file(name, directory.as_str(), ".oga"));
            r.push(sound_file(name, directory.as_str(), ".ogg"));
            r.push(sound_file(name, directory.as_str(), ".wav"));
            assert(crate::text::views(r@) =~= before + sound_files(directory@, name@));
            i = i + 1;
        }
        assert(names.take(i as int) =~= names);
        r
    }

    /// The first existing file of the sound `name` in the directories that
    /// the index file text `file` names, directory by directory.
    pub fn get_sound(&self, file: &str, name: &str, files: &ExistingFiles) -> (r: Option<String>)
        ensures
            crate::text::opt_view(r) == first_existing(files.paths(), theme_files(self@, file@, name@)),
    {
        let dirs = self.get_all_directories(file);
        let ghost names = directory_names(ini_items(file@));
        let mut i: usize = 0;
        while i < dirs.len()
            invariant
                i <= dirs@.len(),
                dirs@.map_values(|d: parse::Directory| d.name@) == names,
                names == directory_names(ini_items(file@)),
                first_existing(files.paths(), files_in_dirs(self.path.0@, names.take(i as int), name@)) is None,
            decreases dirs@.len() - i,
        {
            let directory = join_path(self.path().as_str(), dirs[i].name.as_str());
            let found = try_build_sound_path(name, directory.as_str(), files);
            proof {
                assert(names.take(i + 1).drop_last() == names.take(i as int));
                assert(names.take(i + 1).last() == dirs@[i as int].name@);
                assert(files_in_dirs(self.path.0@, names.take(i + 1), name@) == files_in_dirs(
                    self.path.0@,
                    names.take(i as int),
                    name@,
                ) + sound_files(directory@, name@));
                lemma_first_existing_concat(
                    files.paths(),
                    files_in_dirs(self.path.0@, names.take(i as int), name@),
                    sound_files(directory@, name@),
                );
            }
            if found.is_some() {
                proof {
                    lemma_first_existing_concat(
                        files.paths(),
                        files_in_dirs(self.path.0@, names.take(i + 1), name@),
                        files_in_dirs(self.path.0@, names.skip(i + 1), name@),
                    );
                    lemma_files_in_dirs_split(self.path.0@, names, i + 1, name@);
                }
                return found;
            }
            i = i + 1;
        }
        assert(names.take(i as int) =~= names);
        None
    }

    /// The first existing file of the sound `name` in this theme, the index
    /// file being read from `indexes` (empty where it is missing).
    pub fn try_get_sound(&self, name: &str, indexes: &IndexFiles, files: &ExistingFiles) -> (r: Option<String>)
        ensures
            crate::text::opt_view(r) == first_existing(
                files.paths(),
                theme_files(self@, index_text(indexes.texts(), self.index@), name@),
            ),
    {
        let file = indexes.text_of(&self.index);
        self.get_sound(file.as_str(), name, files)
    }
}

/// The files of a list of directories are those of a prefix followed by those
/// of the rest.
pub proof fn lemma_files_in_dirs_split(path: Seq<char>, dirs: Seq<Seq<char>>, k: int, name: Seq<char>)
    requires
        0 <= k <= dirs.len(),
    ensures
        files_in_dirs(path, dirs, name) == files_in_dirs(path, dirs.take(k), name) + files_in_dirs(
            path,
            dirs.skip(k),
            name,
        ),
    decreases dirs.len(),
{
    if dirs.len() == k {
        assert(dirs.take(k) =~= dirs);
        assert(dirs.skip(k) =~= Seq::<Seq<char>>::empty());
        assert(files_in_dirs(path, dirs, name) + Seq::empty() =~= files_in_dirs(path, dirs, name));
    } else {
        lemma_files_in_dirs_split(path, dirs.drop_last(), k, name);
        assert(dirs.drop_last().take(k) =~= dirs.take(k));
        assert(dirs.skip(k).drop_last() =~= dirs.drop_last().skip(k));
        assert(dirs.skip(k).last() == dirs.last());
        assert(files_in_dirs(path, dirs.take(k), name) + files_in_dirs(path, dirs.skip(k), name)
            =~= files_in_dirs(path, dirs.take(k), name) + files_in_dirs(path, dirs.drop_last().skip(k), name)
            + sound_files(joined(path, dirs.last()), name));
    }
}

/// What a scan of a sound theme base directory saw of one of its entries.
#[derive(Debug, Clone)]
pub struct ThemeDirEntry {
    /// The entry's file name.
    pub name: String,
    /// The entry's path.
    pub path: String,
    /// Whether the entry is a directory.
    pub is_dir: bool,
    /// Whether the entry holds a file `index.theme`.
    pub has_index: bool,
}

/// The mathematical value of a [`ThemeDirEntry`].
pub struct DirEntryView {
    pub name: Seq<char>,
    pub path: Seq<char>,
    pub is_dir: bool,
    pub has_index: bool,
}

impl View for ThemeDirEntry {
    type V = DirEntryView;

    open spec fn view(&self) -> DirEntryView {
        DirEntryView { name: self.name@, path: self.path@, is_dir: self.is_dir, has_index: self.has_index }
    }
}

/// The theme that the directory at `path` holds: none where it is no
/// directory, or holds no index file and no index of a theme of the same
/// name is known; else with the known index `fallback`, or else its own.
pub open spec fn theme_at(path: Seq<char>, has_index: bool, is_dir: bool, fallback: Option<Seq<char>>) -> Option<
    ThemeView,
> {
    if !is_dir || (!has_index && fallback is None) {
        None
    } else {
        match fallback {
            Some(i) => Some(ThemeView { path, index: i }),
            None => Some(ThemeView { path, index: index_path_of(path) }),
        }
    }
}

/// The view of an optional theme.
pub open spec fn opt_theme(t: Option<Theme>) -> Option<ThemeView> {
    match t {
        Some(t) => Some(t@),
        None => None,
    }
}

/// The index of the theme named `name` that the scan found first, if any.
pub open spec fn known_index(found: Map<Seq<char>, Seq<char>>, name: Seq<char>) -> Option<Seq<char>> {
    if found.contains_key(name) {
        Some(found[name])
    } else {
        None
    }
}

/// Where the first pass of a scan stands: the first index found for each
/// theme name, the themes found, and the directories to look at again.
pub struct ScanState {
    pub found: Map<Seq<char>, Seq<char>>,
    pub themes: Map<Seq<char>, Seq<ThemeView>>,
    pub revisit: Seq<DirEntryView>,
}

/// The first pass over the entries of all base directories, in order.
pub open spec fn first_pass(entries: Seq<DirEntryView>) -> ScanState
    decreases entries.len(),
{
    if entries.len() == 0 {
        ScanState { found: Map::empty(), themes: Map::empty(), revisit: Seq::empty() }
    } else {
        let st = first_pass(entries.drop_last());
        let e = entries.last();
        let fallback = known_index(st.found, e.name);
        match theme_at(e.path, e.has_index, e.is_dir, fallback) {
            Some(t) => ScanState {
                found: if fallback is None {
                    st.found.insert(e.name, t.index)
                } else {
                    st.found
                },
                themes: add_theme(st.themes, e.name, t),
                revisit: st.revisit,
            },
            None => if e.is_dir {
                ScanState { found: st.found, themes: st.themes, revisit: st.revisit.push(e) }
            } else {
                st
            },
        }
    }
}

/// The second pass: each directory left over becomes a theme where a theme
/// of its name has an index by now.
pub open spec fn second_pass(
    revisit: Seq<DirEntryView>,
    found: Map<Seq<char>, Seq<char>>,
    themes: Map<Seq<char>, Seq<ThemeView>>,
) -> Map<Seq<char>, Seq<ThemeView>>
    decreases revisit.len(),
{
    if revisit.len() == 0 {
        themes
    } else {
        let m = second_pass(revisit.drop_last(), found, themes);
        let e = revisit.last();
        match theme_at(e.path, e.has_index, e.is_dir, known_index(found, e.name)) {
            Some(t) => add_theme(m, e.name, t),
            None => m,
        }
    }
}

/// The sound themes that the entries of the base directories make up.
pub open spec fn scanned_themes(entries: Seq<DirEntryView>) -> Map<Seq<char>, Seq<ThemeView>> {
    let st = first_pass(entries);
    second_pass(st.revisit, st.found, st.themes)
}

impl Theme {
    /// The theme in the directory `path`, given whether that directory holds
    /// an index file, whether it is a directory, and the index of a theme of
    /// the same name found before, if any.
    pub fn from_path(path: &str, has_index_file: bool, is_dir: bool, index: Option<&String>) -> (r: Option<Theme>)
        ensures
            opt_theme(r) == theme_at(
                path@,
                has_index_file,
                is_dir,
                match index {
                    Some(i) => Some(i@),
                    None => None,
                },
            ),
    {
        let has_index = has_index_file || index.is_some();
        if !has_index || !is_dir {
            return None;
        }
        let path = ThemePath(path.to_owned());
        match (index, path.index(has_index_file)) {
            (Some(index), _) => Some(Theme { path, index: index.clone() }),
            (None, Ok(index)) => Some(Theme { path, index }),
            _ => None,
        }
    }
}

/// All sound themes in the scanned base directories. `entries` lists what
/// the scan saw, base directory by base directory, each in the order of its
/// listing. A directory that holds no index file still counts as a theme
/// where a directory of the same name elsewhere has one: it shares that index.
pub fn get_all_themes(entries: &Vec<ThemeDirEntry>) -> (r: SoundThemes)
    ensures
        r.themes() == scanned_themes(entries@.map_values(|e: ThemeDirEntry| e@)),
        r.themes() == themes_by_rule(entries@.map_values(|e: ThemeDirEntry| e@)),
{
    let ghost ev = entries@.map_values(|e: ThemeDirEntry| e@);
    let mut sound_themes = SoundThemes::new();
    let mut found_indices = TextMap::new();
    let mut to_revisit: Vec<&ThemeDirEntry> = Vec::new();
    let mut i: usize = 0;
    assert(ev.take(0) =~= Seq::<DirEntryView>::empty());
    while i < entries.len()
        invariant
            i <= entries@.len(),
            ev == entries@.map_values(|e: ThemeDirEntry| e@),
            found_indices.texts() == first_pass(ev.take(i as int)).found,
            sound_themes.themes() == first_pass(ev.take(i as int)).themes,
            to_revisit@.len() == first_pass(ev.take(i as int)).revisit.len(),
            forall|j: int|
                0 <= j < to_revisit@.len() ==> #[trigger] to_revisit@[j]@ == first_pass(
                    ev.take(i as int),
                ).revisit[j],
        decreases entries@.len() - i,
    {
        let entry = &entries[i];
        proof {
            assert(ev.take(i + 1).drop_last() =~= ev.take(i as int));
            assert(ev.take(i + 1).last() == entry@);
        }
        let fallback_index = found_indices.get(&entry.name);
        let fallback_known = fallback_index.is_some();
        match Theme::from_path(entry.path.as_str(), entry.has_index, entry.is_dir, fallback_index.as_ref()) {
            Some(theme) => {
                if !fallback_known {
                    found_indices.insert(entry.name.as_str(), theme.index.as_str());
                }
                sound_themes.push(entry.name.as_str(), theme);
            },
            None => {
                if entry.is_dir {
                    let ghost before = to_revisit@;
                    to_revisit.push(entry);
                    assert(to_revisit@[before.len() as int]@ == entry@);
                }
            },
        }
        i = i + 1;
    }
    assert(ev.take(i as int) =~= ev);
    let ghost st = first_pass(ev);
    let mut j: usize = 0;
    assert(st.revisit.take(0) =~= Seq::<DirEntryView>::empty());
    while j < to_revisit.len()
        invariant
            j <= to_revisit@.len(),
            st == first_pass(ev),
            found_indices.texts() == st.found,
            to_revisit@.len() == st.revisit.len(),
            forall|k: int| 0 <= k < to_revisit@.len() ==> #[trigger] to_revisit@[k]@ == st.revisit[k],
            sound_themes.themes() == second_pass(st.revisit.take(j as int), st.found, st.themes),
        decreases to_revisit@.len() - j,
    {
        let entry = to_revisit[j];
        proof {
            assert(st.revisit.take(j + 1).drop_last() =~= st.revisit.take(j as int));
            assert(st.revisit.take(j + 1).last() == entry@);
        }
        let fallback_index = found_indices.get(&entry.name);
        match Theme::from_path(entry.path.as_str(), entry.has_index, entry.is_dir, fallback_index.as_ref()) {
            Some(theme) => {
                sound_themes.push(entry.name.as_str(), theme);
            },
            None => {},
        }
        j = j + 1;
    }
    assert(st.revisit.take(j as int) =~= st.revisit);
    proof {
        lemma_scan_by_rule(ev);
    }
    sound_themes
}

/// Whether `themes` lists, under `name`, a theme in the directory `path`.
pub open spec fn lists_path(themes: Map<Seq<char>, Seq<ThemeView>>, name: Seq<char>, path: Seq<char>) -> bool {
    themes.contains_key(name) && exists|i: int| 0 <= i < themes[name].len() && #[trigger] themes[name][i].path == path
}

/// Whether every theme of `themes` lies in a directory that `entries` show,
/// under its own name.
pub open spec fn from_entries(themes: Map<Seq<char>, Seq<ThemeView>>, entries: Seq<DirEntryView>) -> bool {
    forall|k: Seq<char>, i: int|
        themes.contains_key(k) && 0 <= i < themes[k].len() ==> seen(entries, k, #[trigger] themes[k][i].path)
}

/// Whether `x` is one of `entries`.
pub open spec fn in_entries(entries: Seq<DirEntryView>, x: DirEntryView) -> bool {
    exists|j: int| 0 <= j < entries.len() && entries[j] == x
}

/// Whether `entries` show a directory named `name` at `path`.
pub open spec fn seen(entries: Seq<DirEntryView>, name: Seq<char>, path: Seq<char>) -> bool {
    exists|j: int| 0 <= j < entries.len() && #[trigger] entries[j].name == name && entries[j].path == path && entries[j].is_dir
}

proof fn lemma_add_theme_lists(
    themes: Map<Seq<char>, Seq<ThemeView>>,
    name: Seq<char>,
    t: ThemeView,
    k: Seq<char>,
    p: Seq<char>,
)
    ensures
        lists_path(add_theme(themes, name, t), name, t.path),
        lists_path(themes, k, p) ==> lists_path(add_theme(themes, name, t), k, p),
{
    let m = add_theme(themes, name, t);
    assert(m[name][m[name].len() - 1] == t);
    if lists_path(themes, k, p) {
        let i = choose|i: int| 0 <= i < themes[k].len() && #[trigger] themes[k][i].path == p;
        assert(m[k][i] == themes[k][i]);
    }
}

proof fn lemma_add_theme_from(themes: Map<Seq<char>, Seq<ThemeView>>, entries: Seq<DirEntryView>, j: int, t: ThemeView)
    requires
        from_entries(themes, entries),
        0 <= j < entries.len(),
        entries[j].path == t.path,
        entries[j].is_dir,
    ensures
        from_entries(add_theme(themes, entries[j].name, t), entries),
{
    let name = entries[j].name;
    let m = add_theme(themes, name, t);
    assert forall|k: Seq<char>, i: int| m.contains_key(k) && 0 <= i < m[k].len() implies seen(
        entries,
        k,
        #[trigger] m[k][i].path,
    ) by {
        if k == name && i == m[k].len() - 1 {
            assert(entries[j].name == k && entries[j].path == m[k][i].path);
        } else {
            assert(themes.contains_key(k) && m[k][i] == themes[k][i]);
        }
    }
}

proof fn lemma_from_entries_grow(themes: Map<Seq<char>, Seq<ThemeView>>, entries: Seq<DirEntryView>)
    requires
        entries.len() > 0,
        from_entries(themes, entries.drop_last()),
    ensures
        from_entries(themes, entries),
{
    let pre = entries.drop_last();
    assert forall|k: Seq<char>, i: int| themes.contains_key(k) && 0 <= i < themes[k].len() implies seen(
        entries,
        k,
        #[trigger] themes[k][i].path,
    ) by {
        assert(seen(pre, k, themes[k][i].path));
        let j = choose|j: int|
            0 <= j < pre.len() && #[trigger] pre[j].name == k && pre[j].path == themes[k][i].path && pre[j].is_dir;
        assert(entries[j] == pre[j]);
    }
}

/// After the first pass: every directory with an index file of its own is
/// listed; every theme lies in a directory that was seen; every directory left
/// for the second pass was seen and is a directory.
proof fn lemma_first_pass(entries: Seq<DirEntryView>)
    ensures
        forall|j: int|
            0 <= j < entries.len() && #[trigger] entries[j].is_dir && entries[j].has_index ==> lists_path(
                first_pass(entries).themes,
                entries[j].name,
                entries[j].path,
            ),
        from_entries(first_pass(entries).themes, entries),
        forall|r: int|
            0 <= r < first_pass(entries).revisit.len() ==> in_entries(entries, #[trigger] first_pass(entries).revisit[r]),
        forall|r: int| 0 <= r < first_pass(entries).revisit.len() ==> (#[trigger] first_pass(entries).revisit[r]).is_dir,
    decreases entries.len(),
{
    if entries.len() == 0 {
    } else {
        let pre = entries.drop_last();
        lemma_first_pass(pre);
        let st = first_pass(pre);
        let e = entries.last();
        let n = entries.len() - 1;
        let fallback = known_index(st.found, e.name);
        lemma_from_entries_grow(st.themes, entries);
        assert(entries[n] == e);
        match theme_at(e.path, e.has_index, e.is_dir, fallback) {
            Some(t) => {
                lemma_add_theme_from(st.themes, entries, n, t);
                assert forall|j: int|
                    0 <= j < entries.len() && #[trigger] entries[j].is_dir && entries[j].has_index implies lists_path(
                    first_pass(entries).themes,
                    entries[j].name,
                    entries[j].path,
                ) by {
                    lemma_add_theme_lists(st.themes, e.name, t, entries[j].name, entries[j].path);
                    if j < n {
                        assert(entries[j] == pre[j]);
                    }
                }
                assert forall|r: int| 0 <= r < first_pass(entries).revisit.len() implies in_entries(
                    entries,
                    #[trigger] first_pass(entries).revisit[r],
                ) by {
                    let j = choose|j: int| 0 <= j < pre.len() && pre[j] == st.revisit[r];
                    assert(entries[j] == pre[j]);
                }
            },
            None => {
                assert(!(e.is_dir && e.has_index));
                assert forall|j: int|
                    0 <= j < entries.len() && #[trigger] entries[j].is_dir && entries[j].has_index implies lists_path(
                    first_pass(entries).themes,
                    entries[j].name,
                    entries[j].path,
                ) by {
                    if j < n {
                        assert(entries[j] == pre[j]);
                    }
                }
                assert forall|r: int| 0 <= r < first_pass(entries).revisit.len() implies in_entries(
                    entries,
                    #[trigger] first_pass(entries).revisit[r],
                ) by {
                    if r < st.revisit.len() {
                        let j = choose|j: int| 0 <= j < pre.len() && pre[j] == st.revisit[r];
                        assert(entries[j] == pre[j]);
                    } else {
                        assert(entries[n] == first_pass(entries).revisit[r]);
                    }
                }
            },
        }
    }
}

/// The second pass keeps every theme listed and adds only themes of the
/// directories it looks at.
proof fn lemma_second_pass(
    revisit: Seq<DirEntryView>,
    found: Map<Seq<char>, Seq<char>>,
    themes: Map<Seq<char>, Seq<ThemeView>>,
    entries: Seq<DirEntryView>,
)
    requires
        from_entries(themes, entries),
        forall|r: int| 0 <= r < revisit.len() ==> in_entries(entries, #[trigger] revisit[r]),
    ensures
        from_entries(second_pass(revisit, found, themes), entries),
        forall|k: Seq<char>, p: Seq<char>| lists_path(themes, k, p) ==> #[trigger] lists_path(
            second_pass(revisit, found, themes),
            k,
            p,
        ),
    decreases revisit.len(),
{
    if revisit.len() > 0 {
        let pre = revisit.drop_last();
        assert forall|r: int| 0 <= r < pre.len() implies in_entries(entries, #[trigger] pre[r]) by {
            assert(pre[r] == revisit[r]);
            let j = choose|j: int| 0 <= j < entries.len() && entries[j] == revisit[r];
            assert(entries[j] == pre[r]);
        }
        lemma_second_pass(pre, found, themes, entries);
        let m = second_pass(pre, found, themes);
        let e = revisit.last();
        match theme_at(e.path, e.has_index, e.is_dir, known_index(found, e.name)) {
            Some(t) => {
                let j = choose|j: int| 0 <= j < entries.len() && entries[j] == revisit[revisit.len() - 1];
                lemma_add_theme_from(m, entries, j, t);
                assert forall|k: Seq<char>, p: Seq<char>| lists_path(themes, k, p) implies #[trigger] lists_path(
                    second_pass(revisit, found, themes),
                    k,
                    p,
                ) by {
                    assert(lists_path(m, k, p));
                    lemma_add_theme_lists(m, e.name, t, k, p);
                }
            },
            None => {},
        }
    }
}

/// What the scan makes up: every directory with an index file of its own is
/// a theme under its name; every theme lies in a directory of the scan,
/// under that directory's name; and under each name the first theme has its
/// own index file, which every later theme of that name shares.
pub proof fn lemma_scanned_themes(entries: Seq<DirEntryView>)
    ensures
        shares_first_index(scanned_themes(entries)),
        forall|j: int|
            0 <= j < entries.len() && #[trigger] entries[j].is_dir && entries[j].has_index ==> lists_path(
                scanned_themes(entries),
                entries[j].name,
                entries[j].path,
            ),
        from_entries(scanned_themes(entries), entries),
{
    lemma_scanned_indices(entries);
    lemma_first_pass(entries);
    let st = first_pass(entries);
    lemma_second_pass(st.revisit, st.found, st.themes, entries);
    assert forall|j: int|
        0 <= j < entries.len() && #[trigger] entries[j].is_dir && entries[j].has_index implies lists_path(
        scanned_themes(entries),
        entries[j].name,
        entries[j].path,
    ) by {
        assert(lists_path(st.themes, entries[j].name, entries[j].path));
    }
}

/// Under every name stands at least one theme; the first has its own index
/// file, and every later one shares that index.
pub open spec fn shares_first_index(themes: Map<Seq<char>, Seq<ThemeView>>) -> bool {
    forall|k: Seq<char>|
        #[trigger] themes.contains_key(k) ==> {
            &&& themes[k].len() > 0
            &&& themes[k][0].index == index_path_of(themes[k][0].path)
            &&& forall|i: int| 0 <= i < themes[k].len() ==> #[trigger] themes[k][i].index == themes[k][0].index
        }
}

/// The indices found are those of the first theme under each name.
spec fn index_inv(themes: Map<Seq<char>, Seq<ThemeView>>, found: Map<Seq<char>, Seq<char>>) -> bool {
    &&& shares_first_index(themes)
    &&& forall|k: Seq<char>| #[trigger] themes.contains_key(k) <==> found.contains_key(k)
    &&& forall|k: Seq<char>| #[trigger] found.contains_key(k) ==> found[k] == themes[k][0].index
}

/// Adding a theme that takes the found index of its name, or that is the
/// first of its name with its own index, keeps the indices shared.
proof fn lemma_index_inv_add(
    themes: Map<Seq<char>, Seq<ThemeView>>,
    found: Map<Seq<char>, Seq<char>>,
    name: Seq<char>,
    t: ThemeView,
)
    requires
        index_inv(themes, found),
        found.contains_key(name) ==> t.index == found[name],
        !found.contains_key(name) ==> t.index == index_path_of(t.path),
    ensures
        index_inv(
            add_theme(themes, name, t),
            if found.contains_key(name) {
                found
            } else {
                found.insert(name, t.index)
            },
        ),
{
    let m = add_theme(themes, name, t);
    let f2 = if found.contains_key(name) {
        found
    } else {
        found.insert(name, t.index)
    };
    assert forall|k: Seq<char>| #[trigger] m.contains_key(k) implies {
        &&& m[k].len() > 0
        &&& m[k][0].index == index_path_of(m[k][0].path)
        &&& forall|i: int| 0 <= i < m[k].len() ==> #[trigger] m[k][i].index == m[k][0].index
    } by {
        if k == name {
            if found.contains_key(name) {
                assert(themes.contains_key(name));
                assert(m[k][0] == themes[k][0]);
                assert forall|i: int| 0 <= i < m[k].len() implies #[trigger] m[k][i].index == m[k][0].index by {
                    if i < themes[k].len() {
                        assert(m[k][i] == themes[k][i]);
                    }
                }
            } else {
                assert(!themes.contains_key(name));
                assert(m[k] =~= seq![t]);
            }
        } else {
            assert(themes.contains_key(k) && m[k] == themes[k]);
        }
    }
    assert forall|k: Seq<char>| #[trigger] m.contains_key(k) <==> f2.contains_key(k) by {}
    assert forall|k: Seq<char>| #[trigger] f2.contains_key(k) implies f2[k] == m[k][0].index by {
        if k == name && !found.contains_key(name) {
            assert(m[k] =~= seq![t]);
        } else if k == name {
            assert(m[k][0] == themes[k][0]);
        }
    }
}

proof fn lemma_first_pass_indices(entries: Seq<DirEntryView>)
    ensures
        index_inv(first_pass(entries).themes, first_pass(entries).found),
        forall|r: int| 0 <= r < first_pass(entries).revisit.len() ==> !(#[trigger] first_pass(entries).revisit[r]).has_index,
    decreases entries.len(),
{
    if entries.len() > 0 {
        lemma_first_pass_indices(entries.drop_last());
        let st = first_pass(entries.drop_last());
        let e = entries.last();
        let fallback = known_index(st.found, e.name);
        match theme_at(e.path, e.has_index, e.is_dir, fallback) {
            Some(t) => {
                lemma_index_inv_add(st.themes, st.found, e.name, t);
            },
            None => {},
        }
    } else {
        assert(index_inv(Map::empty(), Map::empty()));
    }
}

proof fn lemma_second_pass_indices(
    revisit: Seq<DirEntryView>,
    found: Map<Seq<char>, Seq<char>>,
    themes: Map<Seq<char>, Seq<ThemeView>>,
)
    requires
        index_inv(themes, found),
        forall|r: int| 0 <= r < revisit.len() ==> !(#[trigger] revisit[r]).has_index,
    ensures
        index_inv(second_pass(revisit, found, themes), found),
    decreases revisit.len(),
{
    if revisit.len() > 0 {
        let pre = revisit.drop_last();
        assert forall|r: int| 0 <= r < pre.len() implies !(#[trigger] pre[r]).has_index by {
            assert(pre[r] == revisit[r]);
        }
        lemma_second_pass_indices(pre, found, themes);
        let m = second_pass(pre, found, themes);
        let e = revisit.last();
        assert(!revisit[revisit.len() - 1].has_index);
        match theme_at(e.path, e.has_index, e.is_dir, known_index(found, e.name)) {
            Some(t) => {
                lemma_index_inv_add(m, found, e.name, t);
            },
            None => {},
        }
    }
}

/// The themes of a name share one index: the first theme found under a
/// name has its own index file, and every later one takes that index.
proof fn lemma_scanned_indices(entries: Seq<DirEntryView>)
    ensures
        shares_first_index(scanned_themes(entries)),
{
    lemma_first_pass_indices(entries);
    let st = first_pass(entries);
    lemma_second_pass_indices(st.revisit, st.found, st.themes);
}

/// The directories among `entries` named `name`, in scan order.
pub open spec fn named_dirs(entries: Seq<DirEntryView>, name: Seq<char>) -> Seq<DirEntryView>
    decreases entries.len(),
{
    if entries.len() == 0 {
        Seq::empty()
    } else {
        let prev = named_dirs(entries.drop_last(), name);
        if entries.last().name == name && entries.last().is_dir {
            prev.push(entries.last())
        } else {
            prev
        }
    }
}

/// The position of the first of `dirs` that holds an index file of its own.
pub open spec fn first_indexed(dirs: Seq<DirEntryView>) -> Option<int>
    decreases dirs.len(),
{
    if dirs.len() == 0 {
        None
    } else {
        match first_indexed(dirs.drop_last()) {
            Some(f) => Some(f),
            None => if dirs.last().has_index {
                Some(dirs.len() - 1)
            } else {
                None
            },
        }
    }
}

/// The themes in the directories `dirs`, all with the index file `index`.
pub open spec fn as_themes(dirs: Seq<DirEntryView>, index: Seq<char>) -> Seq<ThemeView>
    decreases dirs.len(),
{
    if dirs.len() == 0 {
        Seq::empty()
    } else {
        as_themes(dirs.drop_last(), index).push(ThemeView { path: dirs.last().path, index })
    }
}

/// The themes that a scan of `entries` makes up, said directly: a name has
/// themes exactly when one of its directories has an index file of its own;
/// they lie in all its directories, from the first with an index file onward
/// in scan order, then those before it; and all share the index file of that
/// first directory.
pub open spec fn themes_by_rule(entries: Seq<DirEntryView>) -> Map<Seq<char>, Seq<ThemeView>> {
    Map::new(
        |k: Seq<char>| first_indexed(named_dirs(entries, k)) is Some,
        |k: Seq<char>|
            {
                let ds = named_dirs(entries, k);
                let f = first_indexed(ds)->0;
                as_themes(ds.skip(f) + ds.take(f), index_path_of(ds[f].path))
            },
    )
}

proof fn lemma_first_indexed(dirs: Seq<DirEntryView>)
    ensures
        first_indexed(dirs) matches Some(f) ==> 0 <= f < dirs.len() && dirs[f].has_index && forall|j: int|
            0 <= j < f ==> !(#[trigger] dirs[j]).has_index,
        first_indexed(dirs) is None ==> forall|j: int| 0 <= j < dirs.len() ==> !(#[trigger] dirs[j]).has_index,
    decreases dirs.len(),
{
    if dirs.len() > 0 {
        let pre = dirs.drop_last();
        lemma_first_indexed(pre);
        assert forall|j: int| 0 <= j < pre.len() implies #[trigger] dirs[j] == pre[j] by {}
    }
}

proof fn lemma_as_themes_concat(a: Seq<DirEntryView>, b: Seq<DirEntryView>, index: Seq<char>)
    ensures
        as_themes(a + b, index) == as_themes(a, index) + as_themes(b, index),
    decreases b.len(),
{
    if b.len() == 0 {
        assert(a + b =~= a);
        assert(as_themes(a, index) + as_themes(b, index) =~= as_themes(a, index));
    } else {
        lemma_as_themes_concat(a, b.drop_last(), index);
        assert((a + b).drop_last() =~= a + b.drop_last());
        assert((a + b).last() == b.last());
        assert(as_themes(a + b, index) =~= as_themes(a, index) + as_themes(b, index));
    }
}

/// How a scan stands, for the name `k`, after the first pass over `entries`.
spec fn pass1_key(entries: Seq<DirEntryView>, st: ScanState, k: Seq<char>) -> bool {
    let ds = named_dirs(entries, k);
    &&& st.found.contains_key(k) == first_indexed(ds) is Some
    &&& st.themes.contains_key(k) == first_indexed(ds) is Some
    &&& first_indexed(ds) matches Some(f) ==> {
        &&& st.found[k] == index_path_of(ds[f].path)
        &&& st.themes[k] == as_themes(ds.skip(f), st.found[k])
        &&& named_dirs(st.revisit, k) == ds.take(f)
    }
    &&& first_indexed(ds) is None ==> named_dirs(st.revisit, k) == ds
}

spec fn revisit_ok(revisit: Seq<DirEntryView>) -> bool {
    forall|r: int| 0 <= r < revisit.len() ==> (#[trigger] revisit[r]).is_dir && !revisit[r].has_index
}

proof fn lemma_pass1_rule(entries: Seq<DirEntryView>)
    ensures
        forall|k: Seq<char>| #[trigger] pass1_key(entries, first_pass(entries), k),
        revisit_ok(first_pass(entries).revisit),
    decreases entries.len(),
{
    if entries.len() == 0 {
        assert forall|k: Seq<char>| #[trigger] pass1_key(entries, first_pass(entries), k) by {
            assert(named_dirs(entries, k) =~= Seq::<DirEntryView>::empty());
            assert(named_dirs(Seq::<DirEntryView>::empty(), k) =~= Seq::<DirEntryView>::empty());
        }
    } else {
        let pre = entries.drop_last();
        lemma_pass1_rule(pre);
        let st = first_pass(pre);
        let st2 = first_pass(entries);
        let e = entries.last();
        let n = e.name;
        assert(revisit_ok(st2.revisit)) by {
            assert forall|r: int| 0 <= r < st2.revisit.len() implies (#[trigger] st2.revisit[r]).is_dir
                && !st2.revisit[r].has_index by {
                if r < st.revisit.len() {
                    assert(st2.revisit[r] == st.revisit[r]);
                }
            }
        }
        assert forall|k: Seq<char>| #[trigger] pass1_key(entries, st2, k) by {
            assert(pass1_key(pre, st, k));
            let ds0 = named_dirs(pre, k);
            let ds = named_dirs(entries, k);
            lemma_first_indexed(ds0);
            if k == n && e.is_dir {
                assert(ds == ds0.push(e));
                assert(ds.drop_last() =~= ds0);
                assert(ds.last() == e);
                match first_indexed(ds0) {
                    Some(f) => {
                        assert(ds.skip(f) =~= ds0.skip(f).push(e));
                        assert(ds.skip(f).drop_last() =~= ds0.skip(f));
                        assert(ds.take(f) =~= ds0.take(f));
                        assert(ds[f] == ds0[f]);
                        assert(ds.skip(f).last() == e);
                        assert(known_index(st.found, n) == Some(st.found[n]));
                        assert(st2.found == st.found);
                        assert(st2.revisit == st.revisit);
                        assert(st2.themes[k] == as_themes(ds.skip(f), st2.found[k]));
                        assert(first_indexed(ds) == Some(f));
                        assert(pass1_key(entries, st2, k));
                    },
                    None => {
                        if e.has_index {
                            let f = ds0.len() as int;
                            assert(ds.skip(f) =~= seq![e]);
                            assert(seq![e].drop_last() =~= Seq::<DirEntryView>::empty());
                            assert(ds.take(f) =~= ds0);
                            assert(st2.themes[k] =~= seq![ThemeView { path: e.path, index: index_path_of(e.path) }]);
                            assert(first_indexed(ds) == Some(f));
                            assert(ds[f] == e);
                            assert(st2.found[k] == index_path_of(e.path));
                            assert(as_themes(Seq::<DirEntryView>::empty(), index_path_of(e.path)) =~= Seq::<ThemeView>::empty());
                            assert(as_themes(ds.skip(f), st2.found[k]) =~= seq![ThemeView { path: e.path, index: index_path_of(e.path) }]);
                            assert(st2.revisit == st.revisit);
                            assert(pass1_key(entries, st2, k));
                        } else {
                            assert(st2.revisit == st.revisit.push(e));
                            assert(st2.revisit.drop_last() =~= st.revisit);
                            assert(named_dirs(st2.revisit, k) == named_dirs(st.revisit, k).push(e));
                            assert(pass1_key(entries, st2, k));
                        }
                    },
                }
            } else {
                assert(ds == ds0);
                if e.is_dir && theme_at(e.path, e.has_index, e.is_dir, known_index(st.found, n)) is None {
                    assert(st2.revisit.drop_last() =~= st.revisit);
                    assert(named_dirs(st2.revisit, k) == named_dirs(st.revisit, k));
                }
                assert(pass1_key(entries, st2, k));
            }
        }
    }
}

/// How the themes of the name `k` stand after the second pass has gone over `r`.
spec fn pass2_key(
    r: Seq<DirEntryView>,
    found: Map<Seq<char>, Seq<char>>,
    themes: Map<Seq<char>, Seq<ThemeView>>,
    m: Map<Seq<char>, Seq<ThemeView>>,
    k: Seq<char>,
) -> bool {
    &&& m.contains_key(k) == found.contains_key(k)
    &&& found.contains_key(k) ==> m[k] == themes[k] + as_themes(named_dirs(r, k), found[k])
}

proof fn lemma_pass2_rule(r: Seq<DirEntryView>, found: Map<Seq<char>, Seq<char>>, themes: Map<Seq<char>, Seq<ThemeView>>)
    requires
        forall|k: Seq<char>| #[trigger] themes.contains_key(k) == found.contains_key(k),
        revisit_ok(r),
    ensures
        forall|k: Seq<char>| #[trigger] pass2_key(r, found, themes, second_pass(r, found, themes), k),
    decreases r.len(),
{
    if r.len() == 0 {
        assert forall|k: Seq<char>| #[trigger] pass2_key(r, found, themes, second_pass(r, found, themes), k) by {
            assert(themes.contains_key(k) == found.contains_key(k));
            if found.contains_key(k) {
                assert(themes[k] + as_themes(named_dirs(r, k), found[k]) =~= themes[k]);
            }
        }
    } else {
        let pre = r.drop_last();
        assert(revisit_ok(pre)) by {
            assert forall|j: int| 0 <= j < pre.len() implies (#[trigger] pre[j]).is_dir && !pre[j].has_index by {
                assert(pre[j] == r[j]);
            }
        }
        lemma_pass2_rule(pre, found, themes);
        let m = second_pass(pre, found, themes);
        let e = r.last();
        assert(r[r.len() - 1] == e);
        assert forall|k: Seq<char>| #[trigger] pass2_key(r, found, themes, second_pass(r, found, themes), k) by {
            assert(pass2_key(pre, found, themes, m, k));
            if k == e.name {
                assert(named_dirs(r, k) == named_dirs(pre, k).push(e));
                assert(named_dirs(r, k).drop_last() =~= named_dirs(pre, k));
                if found.contains_key(k) {
                    assert(themes[k] + as_themes(named_dirs(r, k), found[k]) =~= (themes[k] + as_themes(
                        named_dirs(pre, k),
                        found[k],
                    )).push(ThemeView { path: e.path, index: found[k] }));
                }
            } else {
                assert(named_dirs(r, k) == named_dirs(pre, k));
            }
        }
    }
}

/// The scan makes up exactly the themes of the direct rule.
pub proof fn lemma_scan_by_rule(entries: Seq<DirEntryView>)
    ensures
        scanned_themes(entries) == themes_by_rule(entries),
{
    lemma_pass1_rule(entries);
    let st = first_pass(entries);
    assert forall|k: Seq<char>| #[trigger] st.themes.contains_key(k) == st.found.contains_key(k) by {
        assert(pass1_key(entries, st, k));
    }
    lemma_pass2_rule(st.revisit, st.found, st.themes);
    let m = scanned_themes(entries);
    let rule = themes_by_rule(entries);
    assert forall|k: Seq<char>| #[trigger] m.contains_key(k) == rule.contains_key(k) by {
        assert(pass1_key(entries, st, k));
        assert(pass2_key(st.revisit, st.found, st.themes, m, k));
    }
    assert forall|k: Seq<char>| m.contains_key(k) implies #[trigger] m[k] == rule[k] by {
        assert(pass1_key(entries, st, k));
        assert(pass2_key(st.revisit, st.found, st.themes, m, k));
        let ds = named_dirs(entries, k);
        let f = first_indexed(ds)->0;
        lemma_as_themes_concat(ds.skip(f), ds.take(f), index_path_of(ds[f].path));
    }
    assert(m =~= rule);
}

} // verus!
