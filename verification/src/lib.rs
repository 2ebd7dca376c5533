//! Lookup of sound files by name and theme, after the freedesktop sound theme
//! specification: the file of a sound is searched in the requested theme,
//! then, depth first, in the themes it inherits from and their parents, then
//! in the `freedesktop` theme.
use vstd::prelude::*;

pub mod cache;
pub mod files;
pub mod keyed;
pub mod text;
pub mod theme;

use cache::{entry_for, Cache, CacheEntry, EntryView};
use files::{first_existing, index_text, lemma_first_existing_concat, ExistingFiles, IndexFiles};
use text::{joined, opt_view, strip_prefix, trim, trimmed, views};
use theme::parse::{inherited, ini_items};
use theme::registry::{theme_views, SoundThemes};
use theme::{themes_files, Theme, ThemeView};

verus! {

/// The name of the themes where a lookup in `theme` starts: `theme` where it
/// is installed, else `freedesktop`.
pub open spec fn primary_name(themes: Map<Seq<char>, Seq<ThemeView>>, theme: Seq<char>) -> Seq<char> {
    if themes.contains_key(theme) {
        theme
    } else {
        "freedesktop"@
    }
}

/// The themes searched first for a lookup in `theme`: those of that name, or
/// else those named `freedesktop`; none where neither is installed.
pub open spec fn primary_themes(themes: Map<Seq<char>, Seq<ThemeView>>, theme: Seq<char>) -> Option<
    Seq<ThemeView>,
> {
    if themes.contains_key(primary_name(themes, theme)) {
        Some(themes[primary_name(themes, theme)])
    } else {
        None
    }
}

/// The themes that the index files of `ts` inherit from, theme by theme.
pub open spec fn all_inherited(ts: Seq<ThemeView>, texts: Map<Seq<char>, Seq<char>>) -> Seq<Seq<char>>
    decreases ts.len(),
{
    if ts.len() == 0 {
        Seq::empty()
    } else {
        all_inherited(ts.drop_last(), texts) + inherited(ini_items(index_text(texts, ts.last().index)))
    }
}

/// `s` with each run of equal neighbours cut down to one, as `Vec::dedup`.
pub open spec fn dedup_seq(s: Seq<Seq<char>>) -> Seq<Seq<char>>
    decreases s.len(),
{
    if s.len() == 0 {
        Seq::empty()
    } else {
        let prev = dedup_seq(s.drop_last());
        if prev.len() > 0 && prev.last() == s.last() {
            prev
        } else {
            prev.push(s.last())
        }
    }
}

/// The parents of the themes `ts`, in the order in which they are searched.
pub open spec fn parents_of(ts: Seq<ThemeView>, texts: Map<Seq<char>, Seq<char>>) -> Seq<Seq<char>> {
    dedup_seq(all_inherited(ts, texts))
}

/// Taking a theme that is neither installed-and-unvisited away from the
/// themes still to visit leaves fewer of them.
pub proof fn lemma_visit_decreases(installed: Set<Seq<char>>, visited: Set<Seq<char>>, p: Seq<char>)
    requires
        installed.finite(),
        installed.contains(p),
        !visited.contains(p),
    ensures
        installed.difference(visited.insert(p)).len() < installed.difference(visited).len(),
{
    assert(installed.difference(visited.insert(p)) =~= installed.difference(visited).remove(p));
    assert(installed.difference(visited).contains(p));
}

/// The files tried for `name` in the themes named `parents` and, depth
/// first, in the themes they inherit from: parent by parent, the parent's own
/// files, then those of its parents, and so on. `ancestors` are the themes on
/// the way down to `parents`; a parent among them is skipped, which ends
/// every cycle of inheritance, and so is a name under which no theme is
/// installed.
pub open spec fn tree_files(
    themes: Map<Seq<char>, Seq<ThemeView>>,
    texts: Map<Seq<char>, Seq<char>>,
    name: Seq<char>,
    parents: Seq<Seq<char>>,
    ancestors: Set<Seq<char>>,
) -> Seq<Seq<char>>
    decreases themes.dom().difference(ancestors).len(), parents.len(),
    when themes.dom().finite()
{
    if parents.len() == 0 {
        Seq::empty()
    } else {
        let p = parents.last();
        let before = tree_files(themes, texts, name, parents.drop_last(), ancestors);
        if ancestors.contains(p) || !themes.contains_key(p) {
            before
        } else {
            proof {
                lemma_visit_decreases(themes.dom(), ancestors, p);
            }
            before + themes_files(themes[p], texts, name) + tree_files(
                themes,
                texts,
                name,
                parents_of(themes[p], texts),
                ancestors.insert(p),
            )
        }
    }
}

/// The files tried for `name` in the themes `ts`, installed under `start`,
/// and then, depth first, in the themes they inherit from.
pub open spec fn theme_tree_files(
    themes: Map<Seq<char>, Seq<ThemeView>>,
    texts: Map<Seq<char>, Seq<char>>,
    name: Seq<char>,
    ts: Seq<ThemeView>,
    start: Seq<char>,
) -> Seq<Seq<char>> {
    themes_files(ts, texts, name) + tree_files(themes, texts, name, parents_of(ts, texts), set![start])
}

/// The files tried for `name` in the `freedesktop` themes and the themes
/// they inherit from, the last resort.
pub open spec fn fallback_files(
    themes: Map<Seq<char>, Seq<ThemeView>>,
    texts: Map<Seq<char>, Seq<char>>,
    name: Seq<char>,
) -> Seq<Seq<char>> {
    if themes.contains_key("freedesktop"@) {
        theme_tree_files(themes, texts, name, themes["freedesktop"@], "freedesktop"@)
    } else {
        Seq::empty()
    }
}

/// Every file that a lookup of `name` in `theme` tries, in order: those of the
/// primary themes and, depth first, of the themes they inherit from; then
/// those of `freedesktop` and its parents. None where no primary theme is
/// installed.
pub open spec fn search_files(
    themes: Map<Seq<char>, Seq<ThemeView>>,
    texts: Map<Seq<char>, Seq<char>>,
    theme: Seq<char>,
    name: Seq<char>,
) -> Option<Seq<Seq<char>>> {
    match primary_themes(themes, theme) {
        None => None,
        Some(ts) => Some(
            theme_tree_files(themes, texts, name, ts, primary_name(themes, theme)) + fallback_files(
                themes,
                texts,
                name,
            ),
        ),
    }
}

/// The file that a lookup of `name` in `theme` finds without a cache: the
/// first of its search files that exists.
pub open spec fn found_sound(
    themes: Map<Seq<char>, Seq<ThemeView>>,
    texts: Map<Seq<char>, Seq<char>>,
    files: Set<Seq<char>>,
    theme: Seq<char>,
    name: Seq<char>,
) -> Option<Seq<char>> {
    match search_files(themes, texts, theme, name) {
        None => None,
        Some(c) => first_existing(files, c),
    }
}

/// The file that the cache `entries` holds for (`theme`, `name`), if it holds
/// one: only a found file cuts a lookup short.
pub open spec fn cached_file(entries: Map<(Seq<char>, Seq<char>), EntryView>, theme: Seq<char>, name: Seq<char>) -> Option<
    Seq<char>,
> {
    if entries.contains_key((theme, name)) {
        match entries[(theme, name)] {
            EntryView::Found(p) => Some(p),
            _ => None,
        }
    } else {
        None
    }
}

/// A whole lookup: its result and the cache after it. With `use_cache`, a
/// file that the cache holds is the answer; else the search runs, and with
/// `use_cache` its outcome is recorded, where a primary theme is installed.
pub open spec fn lookup_outcome(
    entries: Map<(Seq<char>, Seq<char>), EntryView>,
    use_cache: bool,
    themes: Map<Seq<char>, Seq<ThemeView>>,
    texts: Map<Seq<char>, Seq<char>>,
    files: Set<Seq<char>>,
    theme: Seq<char>,
    name: Seq<char>,
) -> (Option<Seq<char>>, Map<(Seq<char>, Seq<char>), EntryView>) {
    if use_cache && cached_file(entries, theme, name) is Some {
        (cached_file(entries, theme, name), entries)
    } else {
        let r = found_sound(themes, texts, files, theme, name);
        if use_cache && primary_themes(themes, theme) is Some {
            (r, entries.insert((theme, name), entry_for(r)))
        } else {
            (r, entries)
        }
    }
}

/// The cache `entries` holds only what lookups without a cache find.
pub open spec fn cache_agrees(
    entries: Map<(Seq<char>, Seq<char>), EntryView>,
    themes: Map<Seq<char>, Seq<ThemeView>>,
    texts: Map<Seq<char>, Seq<char>>,
    files: Set<Seq<char>>,
) -> bool {
    forall|k: (Seq<char>, Seq<char>)|
        #[trigger] entries.contains_key(k) ==> match entries[k] {
            EntryView::Found(p) => found_sound(themes, texts, files, k.0, k.1) == Some(p),
            _ => true,
        }
}

/// The first existing sound file of `name` in the themes `ts`, theme by theme.
fn find_in_themes(ts: &Vec<Theme>, name: &str, indexes: &IndexFiles, files: &ExistingFiles) -> (r: Option<String>)
    ensures
        opt_view(r) == first_existing(files.paths(), themes_files(theme_views(ts@), indexes.texts(), name@)),
{
    let ghost tv = theme_views(ts@);
    let mut i: usize = 0;
    while i < ts.len()
        invariant
            i <= ts@.len(),
            tv == theme_views(ts@),
            first_existing(files.paths(), themes_files(tv.take(i as int), indexes.texts(), name@)) is None,
        decreases ts@.len() - i,
    {
        let found = ts[i].try_get_sound(name, indexes, files);
        proof {
            let t = tv.take(i + 1);
            assert(t.drop_last() =~= tv.take(i as int));
            assert(t.last() == ts@[i as int]@);
            assert(themes_files(t, indexes.texts(), name@) == themes_files(tv.take(i as int), indexes.texts(), name@)
                + theme::theme_files(ts@[i as int]@, index_text(indexes.texts(), ts@[i as int].index@), name@));
            lemma_first_existing_concat(
                files.paths(),
                themes_files(tv.take(i as int), indexes.texts(), name@),
                theme::theme_files(ts@[i as int]@, index_text(indexes.texts(), ts@[i as int].index@), name@),
            );
        }
        if found.is_some() {
            proof {
                lemma_themes_files_split(tv, i + 1, indexes.texts(), name@);
                lemma_first_existing_concat(
                    files.paths(),
                    themes_files(tv.take(i + 1), indexes.texts(), name@),
                    themes_files(tv.skip(i + 1), indexes.texts(), name@),
                );
            }
            return found;
        }
        i = i + 1;
    }
    assert(tv.take(i as int) =~= tv);
    None
}

/// The files of a list of themes are those of a prefix followed by those of
/// the rest.
proof fn lemma_themes_files_split(ts: Seq<ThemeView>, k: int, texts: Map<Seq<char>, Seq<char>>, name: Seq<char>)
    requires
        0 <= k <= ts.len(),
    ensures
        themes_files(ts, texts, name) == themes_files(ts.take(k), texts, name) + themes_files(
            ts.skip(k),
            texts,
            name,
        ),
    decreases ts.len(),
{
    if ts.len() == k {
        assert(ts.take(k) =~= ts);
        assert(ts.skip(k) =~= Seq::<ThemeView>::empty());
        assert(themes_files(ts, texts, name) + Seq::empty() =~= themes_files(ts, texts, name));
    } else {
        lemma_themes_files_split(ts.drop_last(), k, texts, name);
        assert(ts.drop_last().take(k) =~= ts.take(k));
        assert(ts.skip(k).drop_last() =~= ts.drop_last().skip(k));
        assert(ts.skip(k).last() == ts.last());
    }
}

/// The themes that the index files of `ts` inherit from, theme by theme, with
/// runs of the same name cut down to one.
fn parent_themes(ts: &Vec<Theme>, indexes: &IndexFiles) -> (r: Vec<String>)
    ensures
        views(r@) == parents_of(theme_views(ts@), indexes.texts()),
{
    let ghost tv = theme_views(ts@);
    let mut all: Vec<String> = Vec::new();
    let mut i: usize = 0;
    assert(tv.take(0) =~= Seq::<ThemeView>::empty());
    assert(views(all@) =~= Seq::<Seq<char>>::empty());
    while i < ts.len()
        invariant
            i <= ts@.len(),
            tv == theme_views(ts@),
            views(all@) == all_inherited(tv.take(i as int), indexes.texts()),
        decreases ts@.len() - i,
    {
        let file = indexes.text_of(&ts[i].index);
        let mut parents = ts[i].inherits(file.as_str());
        proof {
            assert(tv.take(i + 1).drop_last() =~= tv.take(i as int));
            assert(tv.take(i + 1).last() == ts@[i as int]@);
        }
        let ghost before = views(all@);
        let ghost added = views(parents@);
        let mut j: usize = 0;
        while j < parents.len()
            invariant
                j <= parents@.len(),
                added == views(parents@),
                views(all@) == before + added.take(j as int),
            decreases parents@.len() - j,
        {
            let ghost prev = views(all@);
            all.push(parents[j].clone());
            assert(views(all@) =~= prev.push(added[j as int]));
            assert(added.take(j + 1) =~= added.take(j as int).push(added[j as int]));
            j = j + 1;
        }
        assert(added.take(j as int) =~= added);
        i = i + 1;
    }
    assert(tv.take(i as int) =~= tv);
    let ghost flat = views(all@);
    let mut r: Vec<String> = Vec::new();
    let mut k: usize = 0;
    assert(flat.take(0) =~= Seq::<Seq<char>>::empty());
    while k < all.len()
        invariant
            k <= all@.len(),
            flat == views(all@),
            views(r@) == dedup_seq(flat.take(k as int)),
        decreases all@.len() - k,
    {
        proof {
            assert(flat.take(k + 1).drop_last() =~= flat.take(k as int));
            assert(flat.take(k + 1).last() == all@[k as int]@);
        }
        let n = r.len();
        if n > 0 && r[n - 1] == all[k] {
        } else {
            let ghost prev = views(r@);
            r.push(all[k].clone());
            assert(views(r@) =~= prev.push(all@[k as int]@));
        }
        k = k + 1;
    }
    assert(flat.take(k as int) =~= flat);
    r
}

/// Whether `v` holds `n`.
fn holds_name(v: &Vec<String>, n: &String) -> (r: bool)
    ensures
        r == views(v@).to_set().contains(n@),
{
    let mut i: usize = 0;
    while i < v.len()
        invariant
            i <= v@.len(),
            forall|j: int| 0 <= j < i ==> #[trigger] v@[j]@ != n@,
        decreases v@.len() - i,
    {
        if v[i] == *n {
            assert(views(v@)[i as int] == n@);
            return true;
        }
        i = i + 1;
    }
    assert(!views(v@).contains(n@)) by {
        if views(v@).contains(n@) {
            let j = choose|j: int| 0 <= j < views(v@).len() && views(v@)[j] == n@;
            assert(v@[j]@ == n@);
        }
    }
    false
}

/// `v` with `n` added at the end.
fn with_name(v: &Vec<String>, n: &String) -> (r: Vec<String>)
    ensures
        views(r@) == views(v@).push(n@),
{
    let mut r: Vec<String> = Vec::new();
    let mut i: usize = 0;
    while i < v.len()
        invariant
            i <= v@.len(),
            r@.len() == i,
            forall|j: int| 0 <= j < i ==> #[trigger] r@[j]@ == v@[j]@,
        decreases v@.len() - i,
    {
        r.push(v[i].clone());
        i = i + 1;
    }
    r.push(n.clone());
    assert(views(r@) =~= views(v@).push(n@));
    r
}

/// The first existing sound file of `name` in the themes named `parents` and,
/// depth first, in the themes they inherit from, skipping `ancestors`.
fn find_in_tree(
    parents: &Vec<String>,
    themes: &SoundThemes,
    name: &str,
    indexes: &IndexFiles,
    files: &ExistingFiles,
    ancestors: &Vec<String>,
) -> (r: Option<String>)
    requires
        themes.themes().dom().finite(),
    ensures
        opt_view(r) == first_existing(
            files.paths(),
            tree_files(themes.themes(), indexes.texts(), name@, views(parents@), views(ancestors@).to_set()),
        ),
    decreases themes.themes().dom().difference(views(ancestors@).to_set()).len(),
{
    let ghost m = themes.themes();
    let ghost texts = indexes.texts();
    let ghost f = files.paths();
    let ghost pv = views(parents@);
    let ghost anc = views(ancestors@).to_set();
    let mut i: usize = 0;
    assert(pv.take(0) =~= Seq::<Seq<char>>::empty());
    while i < parents.len()
        invariant
            i <= parents@.len(),
            m == themes.themes(),
            m.dom().finite(),
            texts == indexes.texts(),
            f == files.paths(),
            pv == views(parents@),
            anc == views(ancestors@).to_set(),
            first_existing(f, tree_files(m, texts, name@, pv.take(i as int), anc)) is None,
        decreases parents@.len() - i,
    {
        let p = &parents[i];
        let ghost prefix = tree_files(m, texts, name@, pv.take(i as int), anc);
        proof {
            assert(pv.take(i + 1).drop_last() =~= pv.take(i as int));
            assert(pv.take(i + 1).last() == p@);
            lemma_tree_files_split(m, texts, name@, pv, i + 1, anc);
        }
        if !holds_name(ancestors, p) {
            match themes.get(p.as_str()) {
                Some(ts) => {
                    let ghost own = themes_files(theme_views(ts@), texts, name@);
                    let ghost deep = tree_files(m, texts, name@, parents_of(theme_views(ts@), texts), anc.insert(p@));
                    proof {
                        assert(tree_files(m, texts, name@, pv.take(i + 1), anc) == prefix + own + deep);
                        lemma_first_existing_concat(f, prefix + own, deep);
                        lemma_first_existing_concat(f, prefix, own);
                        lemma_first_existing_concat(
                            f,
                            tree_files(m, texts, name@, pv.take(i + 1), anc),
                            tree_files(m, texts, name@, pv.skip(i + 1), anc),
                        );
                        lemma_visit_decreases(m.dom(), anc, p@);
                    }
                    let own_found = find_in_themes(ts, name, indexes, files);
                    if own_found.is_some() {
                        return own_found;
                    }
                    let sub = parent_themes(ts, indexes);
                    let deeper = with_name(ancestors, p);
                    proof {
                        views(ancestors@).lemma_push_to_set_commute(p@);
                    }
                    let sub_found = find_in_tree(&sub, themes, name, indexes, files, &deeper);
                    if sub_found.is_some() {
                        return sub_found;
                    }
                },
                None => {},
            }
        }
        i = i + 1;
    }
    assert(pv.take(i as int) =~= pv);
    None
}

/// The files of a list of parents are those of a prefix followed by those of
/// the rest: siblings do not depend on each other.
proof fn lemma_tree_files_split(
    themes: Map<Seq<char>, Seq<ThemeView>>,
    texts: Map<Seq<char>, Seq<char>>,
    name: Seq<char>,
    ps: Seq<Seq<char>>,
    k: int,
    ancestors: Set<Seq<char>>,
)
    requires
        0 <= k <= ps.len(),
        themes.dom().finite(),
    ensures
        tree_files(themes, texts, name, ps, ancestors) == tree_files(themes, texts, name, ps.take(k), ancestors)
            + tree_files(themes, texts, name, ps.skip(k), ancestors),
    decreases ps.len(),
{
    if ps.len() == k {
        assert(ps.take(k) =~= ps);
        assert(ps.skip(k) =~= Seq::<Seq<char>>::empty());
        assert(tree_files(themes, texts, name, ps, ancestors) + Seq::empty() =~= tree_files(
            themes,
            texts,
            name,
            ps,
            ancestors,
        ));
    } else {
        lemma_tree_files_split(themes, texts, name, ps.drop_last(), k, ancestors);
        assert(ps.drop_last().take(k) =~= ps.take(k));
        assert(ps.skip(k).drop_last() =~= ps.drop_last().skip(k));
        assert(ps.skip(k).last() == ps.last());
    }
}

/// The first existing sound file of `name` in the themes `ts`, installed
/// under `start`, and then, depth first, in the themes they inherit from.
fn find_from(
    ts: &Vec<Theme>,
    start: &str,
    themes: &SoundThemes,
    name: &str,
    indexes: &IndexFiles,
    files: &ExistingFiles,
) -> (r: Option<String>)
    requires
        themes.themes().dom().finite(),
    ensures
        opt_view(r) == first_existing(
            files.paths(),
            theme_tree_files(themes.themes(), indexes.texts(), name@, theme_views(ts@), start@),
        ),
{
    let ghost own = themes_files(theme_views(ts@), indexes.texts(), name@);
    let ghost deep = tree_files(
        themes.themes(),
        indexes.texts(),
        name@,
        parents_of(theme_views(ts@), indexes.texts()),
        set![start@],
    );
    proof {
        lemma_first_existing_concat(files.paths(), own, deep);
    }
    let own_found = find_in_themes(ts, name, indexes, files);
    if own_found.is_some() {
        return own_found;
    }
    let parents = parent_themes(ts, indexes);
    let mut ancestors: Vec<String> = Vec::new();
    ancestors.push(start.to_owned());
    proof {
        assert(views(ancestors@) =~= seq![start@]);
        assert(seq![start@].to_set() =~= set![start@]) by {
            assert(seq![start@][0] == start@);
        }
    }
    find_in_tree(&parents, themes, name, indexes, files, &ancestors)
}

/// Appends every file tried for `name` in the themes `ts` to `out`.
fn push_themes_files(out: &mut Vec<String>, ts: &Vec<Theme>, name: &str, indexes: &IndexFiles)
    ensures
        views(final(out)@) == views(old(out)@) + themes_files(theme_views(ts@), indexes.texts(), name@),
{
    let ghost tv = theme_views(ts@);
    let ghost start = views(out@);
    let mut i: usize = 0;
    assert(tv.take(0) =~= Seq::<ThemeView>::empty());
    assert(views(out@) =~= start + Seq::<Seq<char>>::empty());
    while i < ts.len()
        invariant
            i <= ts@.len(),
            tv == theme_views(ts@),
            views(out@) == start + themes_files(tv.take(i as int), indexes.texts(), name@),
        decreases ts@.len() - i,
    {
        let file = indexes.text_of(&ts[i].index);
        let more = ts[i].sound_candidates(file.as_str(), name);
        proof {
            assert(tv.take(i + 1).drop_last() =~= tv.take(i as int));
            assert(tv.take(i + 1).last() == ts@[i as int]@);
        }
        let ghost before = views(out@);
        let ghost added = views(more@);
        let mut j: usize = 0;
        while j < more.len()
            invariant
                j <= more@.len(),
                added == views(more@),
                views(out@) == before + added.take(j as int),
            decreases more@.len() - j,
        {
            let ghost prev = views(out@);
            out.push(more[j].clone());
            assert(views(out@) =~= prev.push(added[j as int]));
            assert(added.take(j + 1) =~= added.take(j as int).push(added[j as int]));
            j = j + 1;
        }
        assert(added.take(j as int) =~= added);
        assert(views(out@) =~= start + themes_files(tv.take(i + 1), indexes.texts(), name@));
        i = i + 1;
    }
    assert(tv.take(i as int) =~= tv);
}

/// Appends every file tried for `name` in the themes named `parents` and,
/// depth first, in the themes they inherit from, skipping `ancestors`.
fn push_tree_files(
    out: &mut Vec<String>,
    parents: &Vec<String>,
    themes: &SoundThemes,
    name: &str,
    indexes: &IndexFiles,
    ancestors: &Vec<String>,
)
    requires
        themes.themes().dom().finite(),
    ensures
        views(final(out)@) == views(old(out)@) + tree_files(
            themes.themes(),
            indexes.texts(),
            name@,
            views(parents@),
            views(ancestors@).to_set(),
        ),
    decreases themes.themes().dom().difference(views(ancestors@).to_set()).len(),
{
    let ghost m = themes.themes();
    let ghost texts = indexes.texts();
    let ghost pv = views(parents@);
    let ghost anc = views(ancestors@).to_set();
    let ghost start = views(out@);
    let mut i: usize = 0;
    assert(pv.take(0) =~= Seq::<Seq<char>>::empty());
    assert(views(out@) =~= start + Seq::<Seq<char>>::empty());
    while i < parents.len()
        invariant
            i <= parents@.len(),
            m == themes.themes(),
            m.dom().finite(),
            texts == indexes.texts(),
            pv == views(parents@),
            anc == views(ancestors@).to_set(),
            views(out@) == start + tree_files(m, texts, name@, pv.take(i as int), anc),
        decreases parents@.len() - i,
    {
        let p = &parents[i];
        let ghost prefix = tree_files(m, texts, name@, pv.take(i as int), anc);
        proof {
            assert(pv.take(i + 1).drop_last() =~= pv.take(i as int));
            assert(pv.take(i + 1).last() == p@);
        }
        if !holds_name(ancestors, p) {
            match themes.get(p.as_str()) {
                Some(ts) => {
                    proof {
                        lemma_visit_decreases(m.dom(), anc, p@);
                    }
                    push_themes_files(out, ts, name, indexes);
                    let sub = parent_themes(ts, indexes);
                    let deeper = with_name(ancestors, p);
                    proof {
                        views(ancestors@).lemma_push_to_set_commute(p@);
                    }
                    push_tree_files(out, &sub, themes, name, indexes, &deeper);
                    assert(views(out@) =~= start + tree_files(m, texts, name@, pv.take(i + 1), anc));
                },
                None => {
                    assert(views(out@) =~= start + tree_files(m, texts, name@, pv.take(i + 1), anc));
                },
            }
        } else {
            assert(views(out@) =~= start + tree_files(m, texts, name@, pv.take(i + 1), anc));
        }
        i = i + 1;
    }
    assert(pv.take(i as int) =~= pv);
}

/// Appends every file tried for `name` in the themes `ts`, installed under
/// `start`, and then, depth first, in the themes they inherit from.
fn push_from(
    out: &mut Vec<String>,
    ts: &Vec<Theme>,
    start: &str,
    themes: &SoundThemes,
    name: &str,
    indexes: &IndexFiles,
)
    requires
        themes.themes().dom().finite(),
    ensures
        views(final(out)@) == views(old(out)@) + theme_tree_files(
            themes.themes(),
            indexes.texts(),
            name@,
            theme_views(ts@),
            start@,
        ),
{
    let ghost before = views(out@);
    push_themes_files(out, ts, name, indexes);
    let parents = parent_themes(ts, indexes);
    let mut ancestors: Vec<String> = Vec::new();
    ancestors.push(start.to_owned());
    proof {
        assert(views(ancestors@) =~= seq![start@]);
        assert(seq![start@].to_set() =~= set![start@]) by {
            assert(seq![start@][0] == start@);
        }
    }
    push_tree_files(out, &parents, themes, name, indexes, &ancestors);
    assert(views(out@) =~= before + theme_tree_files(
        themes.themes(),
        indexes.texts(),
        name@,
        theme_views(ts@),
        start@,
    ));
}

/// A lookup of a sound, to be set up with the builder methods and run with
/// [`LookupBuilder::find`].
pub struct LookupBuilder<'a> {
    name: &'a str,
    theme: &'a str,
    cache: bool,
}

impl<'a> LookupBuilder<'a> {
    /// The name of the sound looked up.
    pub closed spec fn sound(&self) -> Seq<char> {
        self.name@
    }

    /// The theme searched first.
    pub closed spec fn theme(&self) -> Seq<char> {
        self.theme@
    }

    /// Whether the lookup goes through the cache.
    pub closed spec fn uses_cache(&self) -> bool {
        self.cache
    }

    fn new(name: &'a str) -> (r: Self)
        ensures
            r.sound() == name@,
            r.theme() == "freedesktop"@,
            !r.uses_cache(),
    {
        LookupBuilder { name, theme: "freedesktop", cache: false }
    }

    /// Searches `theme` first, in place of `freedesktop`.
    pub fn with_theme(self, theme: &'a str) -> (r: Self)
        ensures
            r.sound() == self.sound(),
            r.theme() == theme@,
            r.uses_cache() == self.uses_cache(),
    {
        let mut s = self;
        s.theme = theme;
        s
    }

    /// Answers from the cache where it holds a file, and records the outcome
    /// of the search there.
    pub fn with_cache(self) -> (r: Self)
        ensures
            r.sound() == self.sound(),
            r.theme() == self.theme(),
            r.uses_cache(),
    {
        let mut s = self;
        s.cache = true;
        s
    }

    /// Runs the lookup over the installed `themes`, the texts of their index
    /// files `indexes` and the files known to exist `files`, with `cache` as
    /// the cache. The file found is the first existing one of the sound in the
    /// theme, then, depth first, in the themes it inherits from and theirs in
    /// turn (a cycle of inheritance is cut where it comes back), then in
    /// `freedesktop`; where the theme is not installed, the search starts in
    /// `freedesktop`.
    pub fn find(self, themes: &SoundThemes, indexes: &IndexFiles, files: &ExistingFiles, cache: &mut Cache) -> (r:
        Option<String>)
        ensures
            (opt_view(r), final(cache).entries()) == lookup_outcome(
                old(cache).entries(),
                self.uses_cache(),
                themes.themes(),
                indexes.texts(),
                files.paths(),
                self.theme(),
                self.sound(),
            ),
    {
        self.lookup_in_theme(themes, indexes, files, cache)
    }

    fn lookup_in_theme(&self, themes: &SoundThemes, indexes: &IndexFiles, files: &ExistingFiles, cache: &mut Cache) -> (r:
        Option<String>)
        ensures
            (opt_view(r), final(cache).entries()) == lookup_outcome(
                old(cache).entries(),
                self.uses_cache(),
                themes.themes(),
                indexes.texts(),
                files.paths(),
                self.theme(),
                self.sound(),
            ),
    {
        if self.cache {
            if let CacheEntry::Found(sound) = self.cache_lookup(cache, self.theme) {
                return Some(sound);
            }
        }
        proof {
            themes.lemma_finite();
        }
        let ghost m = themes.themes();
        let ghost texts = indexes.texts();
        let ghost f = files.paths();
        let ghost nm = self.name@;
        let (start, primary) = match themes.get(self.theme) {
            Some(ts) => (self.theme, Some(ts)),
            None => ("freedesktop", themes.get("freedesktop")),
        };
        match primary {
            None => None,
            Some(sound_themes) => {
                let ghost a = theme_tree_files(m, texts, nm, theme_views(sound_themes@), start@);
                let ghost c = fallback_files(m, texts, nm);
                proof {
                    lemma_first_existing_concat(f, a, c);
                }
                let mut sound = find_from(sound_themes, start, themes, self.name, indexes, files);
                if sound.is_none() {
                    sound = match themes.get("freedesktop") {
                        Some(base) => find_from(base, "freedesktop", themes, self.name, indexes, files),
                        None => None,
                    };
                }
                if self.cache {
                    self.store(cache, self.theme, sound)
                } else {
                    sound
                }
            },
        }
    }

    /// Every file that the lookup tries, in order, where a primary theme is
    /// installed: which of them exist is what [`LookupBuilder::find`] needs
    /// to know.
    pub fn search_paths(&self, themes: &SoundThemes, indexes: &IndexFiles) -> (r: Option<Vec<String>>)
        ensures
            match r {
                Some(v) => search_files(themes.themes(), indexes.texts(), self.theme(), self.sound()) == Some(
                    views(v@),
                ),
                None => search_files(themes.themes(), indexes.texts(), self.theme(), self.sound()) is None,
            },
    {
        proof {
            themes.lemma_finite();
        }
        let (start, primary) = match themes.get(self.theme) {
            Some(ts) => (self.theme, Some(ts)),
            None => ("freedesktop", themes.get("freedesktop")),
        };
        match primary {
            None => None,
            Some(sound_themes) => {
                let mut out: Vec<String> = Vec::new();
                assert(views(out@) =~= Seq::<Seq<char>>::empty());
                push_from(&mut out, sound_themes, start, themes, self.name, indexes);
                let ghost first = views(out@);
                match themes.get("freedesktop") {
                    Some(base) => push_from(&mut out, base, "freedesktop", themes, self.name, indexes),
                    None => {},
                }
                assert(views(out@) =~= first + fallback_files(themes.themes(), indexes.texts(), self.name@));
                Some(out)
            },
        }
    }

    fn cache_lookup(&self, cache: &Cache, theme: &str) -> (r: CacheEntry)
        ensures
            r@ == cache::entry_of(cache.entries(), theme@, self.name@),
    {
        cache.get(theme, self.name)
    }

    fn store(&self, cache: &mut Cache, theme: &str, sound: Option<String>) -> (r: Option<String>)
        ensures
            r == sound,
            final(cache).entries() == old(cache).entries().insert((theme@, self.name@), entry_for(opt_view(sound))),
    {
        cache.insert(theme, self.name, &sound);
        sound
    }
}

/// Starts a lookup of the sound `name`, in the theme `freedesktop`, without
/// the cache.
pub fn lookup<'a>(name: &'a str) -> (r: LookupBuilder<'a>)
    ensures
        r.sound() == name@,
        r.theme() == "freedesktop"@,
        !r.uses_cache(),
{
    LookupBuilder::new(name)
}

/// The name that the lines of an index file give their theme: the rest of the
/// first line that starts with `Name=`, trimmed.
pub open spec fn display_name(lines: Seq<Seq<char>>) -> Option<Seq<char>>
    decreases lines.len(),
{
    if lines.len() == 0 {
        None
    } else if "Name="@.len() <= lines[0].len() && lines[0].take("Name="@.len() as int) == "Name="@ {
        Some(trimmed(lines[0].skip("Name="@.len() as int)))
    } else {
        display_name(lines.drop_first())
    }
}

/// The names that the index files give, file by file, files without a name
/// left out.
pub open spec fn display_names(files: Seq<Seq<Seq<char>>>) -> Seq<Seq<char>>
    decreases files.len(),
{
    if files.len() == 0 {
        Seq::empty()
    } else {
        match display_name(files.last()) {
            Some(n) => display_names(files.drop_last()).push(n),
            None => display_names(files.drop_last()),
        }
    }
}

/// The views of the lines of several files.
pub open spec fn files_lines(files: Seq<Vec<String>>) -> Seq<Seq<Seq<char>>> {
    files.map_values(|f: Vec<String>| views(f@))
}

/// The name that the lines `lines` of an index file give their theme.
pub fn theme_display_name(lines: &Vec<String>) -> (r: Option<String>)
    ensures
        opt_view(r) == display_name(views(lines@)),
{
    let ghost lv = views(lines@);
    let mut i: usize = 0;
    assert(lv.skip(0) =~= lv);
    while i < lines.len()
        invariant
            i <= lines@.len(),
            lv == views(lines@),
            display_name(lv.skip(i as int)) == display_name(lv),
        decreases lines@.len() - i,
    {
        proof {
            assert(lv.skip(i as int)[0] == lines@[i as int]@);
            assert(lv.skip(i as int).drop_first() =~= lv.skip(i + 1));
        }
        match strip_prefix(lines[i].as_str(), "Name=") {
            Some(name) => {
                return Some(trim(name.as_str()));
            },
            None => {},
        }
        i = i + 1;
    }
    None
}

/// The names of the installed themes that their index files give, file by
/// file in the order given, with runs of the same name cut down to one.
/// Each file is given by its lines, up to the first that cannot be read.
pub fn list_theme_names(files: &Vec<Vec<String>>) -> (r: Vec<String>)
    ensures
        views(r@) == dedup_seq(display_names(files_lines(files@))),
{
    let ghost fl = files_lines(files@);
    let mut names: Vec<String> = Vec::new();
    let mut i: usize = 0;
    assert(fl.take(0) =~= Seq::<Seq<Seq<char>>>::empty());
    assert(views(names@) =~= Seq::<Seq<char>>::empty());
    while i < files.len()
        invariant
            i <= files@.len(),
            fl == files_lines(files@),
            views(names@) == display_names(fl.take(i as int)),
        decreases files@.len() - i,
    {
        proof {
            assert(fl.take(i + 1).drop_last() =~= fl.take(i as int));
            assert(fl.take(i + 1).last() == views(files@[i as int]@));
        }
        match theme_display_name(&files[i]) {
            Some(n) => {
                let ghost before = views(names@);
                names.push(n);
                assert(views(names@) =~= before.push(names@[names@.len() - 1]@));
            },
            None => {},
        }
        i = i + 1;
    }
    assert(fl.take(i as int) =~= fl);
    let ghost flat = views(names@);
    let mut r: Vec<String> = Vec::new();
    let mut k: usize = 0;
    assert(flat.take(0) =~= Seq::<Seq<char>>::empty());
    while k < names.len()
        invariant
            k <= names@.len(),
            flat == views(names@),
            views(r@) == dedup_seq(flat.take(k as int)),
        decreases names@.len() - k,
    {
        proof {
            assert(flat.take(k + 1).drop_last() =~= flat.take(k as int));
            assert(flat.take(k + 1).last() == names@[k as int]@);
        }
        let n = r.len();
        if n > 0 && r[n - 1] == names[k] {
        } else {
            let ghost prev = views(r@);
            r.push(names[k].clone());
            assert(views(r@) =~= prev.push(names@[k as int]@));
        }
        k = k + 1;
    }
    assert(flat.take(k as int) =~= flat);
    r
}

/// Whether `ext` is one of the extensions under which a sound is looked for.
pub open spec fn sound_ext(ext: Seq<char>) -> bool {
    ext == ".disabled"@ || ext == ".oga"@ || ext == ".ogg"@ || ext == ".wav"@
}

proof fn lemma_concat_has<A>(a: Seq<A>, b: Seq<A>, x: A)
    ensures
        a.contains(x) ==> (a + b).contains(x),
        b.contains(x) ==> (a + b).contains(x),
{
    if a.contains(x) {
        let i = choose|i: int| 0 <= i < a.len() && a[i] == x;
        assert((a + b)[i] == x);
    }
    if b.contains(x) {
        let i = choose|i: int| 0 <= i < b.len() && b[i] == x;
        assert((a + b)[a.len() + i] == x);
    }
}

proof fn lemma_files_in_dirs_has(path: Seq<char>, dirs: Seq<Seq<char>>, name: Seq<char>, v: int, ext: Seq<char>)
    requires
        0 <= v < dirs.len(),
        sound_ext(ext),
    ensures
        theme::files_in_dirs(path, dirs, name).contains(joined(joined(path, dirs[v]), name + ext)),
    decreases dirs.len(),
{
    let f = joined(joined(path, dirs[v]), name + ext);
    let pre = dirs.drop_last();
    if v < pre.len() {
        lemma_files_in_dirs_has(path, pre, name, v, ext);
        assert(pre[v] == dirs[v]);
        lemma_concat_has(
            theme::files_in_dirs(path, pre, name),
            theme::sound_files(joined(path, dirs.last()), name),
            f,
        );
    } else {
        let sf = theme::sound_files(joined(path, dirs.last()), name);
        assert(sf.contains(f)) by {
            if ext == ".disabled"@ {
                assert(sf[0] == f);
            } else if ext == ".oga"@ {
                assert(sf[1] == f);
            } else if ext == ".ogg"@ {
                assert(sf[2] == f);
            } else {
                assert(sf[3] == f);
            }
        }
        lemma_concat_has(theme::files_in_dirs(path, pre, name), sf, f);
    }
}

proof fn lemma_themes_files_has(ts: Seq<ThemeView>, texts: Map<Seq<char>, Seq<char>>, name: Seq<char>, i: int, f: Seq<char>)
    requires
        0 <= i < ts.len(),
        theme::theme_files(ts[i], index_text(texts, ts[i].index), name).contains(f),
    ensures
        themes_files(ts, texts, name).contains(f),
    decreases ts.len(),
{
    let pre = ts.drop_last();
    if i < pre.len() {
        assert(pre[i] == ts[i]);
        lemma_themes_files_has(pre, texts, name, i, f);
        lemma_concat_has(
            themes_files(pre, texts, name),
            theme::theme_files(ts.last(), index_text(texts, ts.last().index), name),
            f,
        );
    } else {
        lemma_concat_has(
            themes_files(pre, texts, name),
            theme::theme_files(ts.last(), index_text(texts, ts.last().index), name),
            f,
        );
    }
}

proof fn lemma_all_inherited_has(ts: Seq<ThemeView>, texts: Map<Seq<char>, Seq<char>>, i: int, p: Seq<char>)
    requires
        0 <= i < ts.len(),
        inherited(ini_items(index_text(texts, ts[i].index))).contains(p),
    ensures
        all_inherited(ts, texts).contains(p),
    decreases ts.len(),
{
    let pre = ts.drop_last();
    let last = inherited(ini_items(index_text(texts, ts.last().index)));
    if i < pre.len() {
        assert(pre[i] == ts[i]);
        lemma_all_inherited_has(pre, texts, i, p);
    }
    lemma_concat_has(all_inherited(pre, texts), last, p);
}

proof fn lemma_dedup_has(s: Seq<Seq<char>>, x: Seq<char>)
    requires
        s.contains(x),
    ensures
        dedup_seq(s).contains(x),
    decreases s.len(),
{
    let pre = s.drop_last();
    let d = dedup_seq(pre);
    if s.last() == x {
        if d.len() > 0 && d.last() == s.last() {
            assert(d[d.len() - 1] == x);
        } else {
            assert(d.push(s.last())[d.len() as int] == x);
        }
    } else {
        let i = choose|i: int| 0 <= i < s.len() && s[i] == x;
        assert(pre[i] == x);
        lemma_dedup_has(pre, x);
        let j = choose|j: int| 0 <= j < d.len() && d[j] == x;
        if !(d.len() > 0 && d.last() == s.last()) {
            assert(d.push(s.last())[j] == x);
        }
    }
}

proof fn lemma_tree_files_has(
    themes: Map<Seq<char>, Seq<ThemeView>>,
    texts: Map<Seq<char>, Seq<char>>,
    name: Seq<char>,
    parents: Seq<Seq<char>>,
    ancestors: Set<Seq<char>>,
    p: Seq<char>,
    f: Seq<char>,
)
    requires
        themes.dom().finite(),
        parents.contains(p),
        !ancestors.contains(p),
        themes.contains_key(p),
        themes_files(themes[p], texts, name).contains(f) || tree_files(
            themes,
            texts,
            name,
            parents_of(themes[p], texts),
            ancestors.insert(p),
        ).contains(f),
    ensures
        tree_files(themes, texts, name, parents, ancestors).contains(f),
    decreases parents.len(),
{
    let pre = parents.drop_last();
    let q = parents.last();
    let before = tree_files(themes, texts, name, pre, ancestors);
    if q == p {
        lemma_visit_decreases(themes.dom(), ancestors, p);
        lemma_concat_has(before, themes_files(themes[p], texts, name), f);
        lemma_concat_has(
            before + themes_files(themes[p], texts, name),
            tree_files(themes, texts, name, parents_of(themes[p], texts), ancestors.insert(p)),
            f,
        );
    } else {
        let i = choose|i: int| 0 <= i < parents.len() && parents[i] == p;
        assert(pre[i] == p);
        lemma_tree_files_has(themes, texts, name, pre, ancestors, p, f);
        if !(ancestors.contains(q) || !themes.contains_key(q)) {
            lemma_visit_decreases(themes.dom(), ancestors, q);
            lemma_concat_has(before, themes_files(themes[q], texts, name), f);
            lemma_concat_has(
                before + themes_files(themes[q], texts, name),
                tree_files(themes, texts, name, parents_of(themes[q], texts), ancestors.insert(q)),
                f,
            );
        }
    }
}

/// Whether `themes` under the name `child` inherit from `parent`: the index
/// file of one of them names it.
pub open spec fn inherits_from(
    themes: Map<Seq<char>, Seq<ThemeView>>,
    texts: Map<Seq<char>, Seq<char>>,
    child: Seq<char>,
    parent: Seq<char>,
) -> bool {
    exists|i: int|
        0 <= i < themes[child].len() && #[trigger] inherited(ini_items(index_text(texts, themes[child][i].index))).contains(
            parent,
        )
}

/// Whether `path` is a chain of inheritance among installed themes, with no
/// name twice: each name after the first is inherited by the themes of the
/// name before it.
pub open spec fn inheritance_chain(
    themes: Map<Seq<char>, Seq<ThemeView>>,
    texts: Map<Seq<char>, Seq<char>>,
    path: Seq<Seq<char>>,
) -> bool {
    &&& path.len() >= 1
    &&& forall|k: int| 0 <= k < path.len() ==> themes.contains_key(#[trigger] path[k])
    &&& forall|k1: int, k2: int| 0 <= k1 < k2 < path.len() ==> #[trigger] path[k1] != #[trigger] path[k2]
    &&& forall|k: int| 0 <= k < path.len() - 1 ==> inherits_from(themes, texts, #[trigger] path[k], path[k + 1])
}

proof fn lemma_parents_of_has(themes: Map<Seq<char>, Seq<ThemeView>>, texts: Map<Seq<char>, Seq<char>>, child: Seq<char>, p: Seq<char>)
    requires
        inherits_from(themes, texts, child, p),
    ensures
        parents_of(themes[child], texts).contains(p),
{
    let i = choose|i: int|
        0 <= i < themes[child].len() && #[trigger] inherited(ini_items(index_text(texts, themes[child][i].index))).contains(p);
    lemma_all_inherited_has(themes[child], texts, i, p);
    lemma_dedup_has(all_inherited(themes[child], texts), p);
}

proof fn lemma_chain_in_tree(
    themes: Map<Seq<char>, Seq<ThemeView>>,
    texts: Map<Seq<char>, Seq<char>>,
    name: Seq<char>,
    parents: Seq<Seq<char>>,
    ancestors: Set<Seq<char>>,
    path: Seq<Seq<char>>,
    f: Seq<char>,
)
    requires
        themes.dom().finite(),
        inheritance_chain(themes, texts, path),
        parents.contains(path[0]),
        forall|k: int| 0 <= k < path.len() ==> !ancestors.contains(#[trigger] path[k]),
        themes_files(themes[path.last()], texts, name).contains(f),
    ensures
        tree_files(themes, texts, name, parents, ancestors).contains(f),
    decreases path.len(),
{
    let q = path[0];
    assert(themes.contains_key(path[0]));
    assert(!ancestors.contains(path[0]));
    if path.len() == 1 {
        lemma_tree_files_has(themes, texts, name, parents, ancestors, q, f);
    } else {
        let rest = path.skip(1);
        assert(inherits_from(themes, texts, path[0], path[1]));
        lemma_parents_of_has(themes, texts, q, path[1]);
        assert forall|k: int| 0 <= k < rest.len() implies #[trigger] rest[k] == path[k + 1] by {}
        assert(inheritance_chain(themes, texts, rest)) by {
            assert forall|k: int| 0 <= k < rest.len() implies themes.contains_key(#[trigger] rest[k]) by {
                assert(themes.contains_key(path[k + 1]));
            }
            assert forall|k1: int, k2: int| 0 <= k1 < k2 < rest.len() implies #[trigger] rest[k1] != #[trigger] rest[k2] by {
                assert(path[k1 + 1] != path[k2 + 1]);
            }
            assert forall|k: int| 0 <= k < rest.len() - 1 implies inherits_from(themes, texts, #[trigger] rest[k], rest[k + 1]) by {
                assert(inherits_from(themes, texts, path[k + 1], path[k + 2]));
            }
        }
        assert forall|k: int| 0 <= k < rest.len() implies !ancestors.insert(q).contains(#[trigger] rest[k]) by {
            assert(path[0] != path[k + 1]);
            assert(!ancestors.contains(path[k + 1]));
        }
        assert(rest.last() == path.last());
        assert(rest[0] == path[1]);
        lemma_visit_decreases(themes.dom(), ancestors, q);
        lemma_chain_in_tree(themes, texts, name, parents_of(themes[q], texts), ancestors.insert(q), rest, f);
        lemma_tree_files_has(themes, texts, name, parents, ancestors, q, f);
    }
}

/// Inheritance is followed to any depth: the files of the last theme of any
/// chain of inheritance from `theme` (through installed themes, no name
/// twice), found in the directories that its recorded index file names, are
/// among those that a lookup in `theme` tries; a lookup finds a file wherever
/// one of those exists.
pub proof fn lemma_inherited_chain_searched(
    themes: Map<Seq<char>, Seq<ThemeView>>,
    texts: Map<Seq<char>, Seq<char>>,
    files: Set<Seq<char>>,
    name: Seq<char>,
    path: Seq<Seq<char>>,
    u: int,
    v: int,
    ext: Seq<char>,
)
    requires
        themes.dom().finite(),
        inheritance_chain(themes, texts, path),
        0 <= u < themes[path.last()].len(),
        0 <= v < theme::parse::directory_names(ini_items(index_text(texts, themes[path.last()][u].index))).len(),
        sound_ext(ext),
    ensures
        ({
            let t = themes[path.last()][u];
            let dir = theme::parse::directory_names(ini_items(index_text(texts, t.index)))[v];
            let f = joined(joined(t.path, dir), name + ext);
            &&& search_files(themes, texts, path[0], name) matches Some(c) && c.contains(f)
            &&& files.contains(f) ==> found_sound(themes, texts, files, path[0], name) is Some
        }),
{
    let theme = path[0];
    assert(themes.contains_key(path[0]));
    let ts = themes[theme];
    let t = themes[path.last()][u];
    let dirs = theme::parse::directory_names(ini_items(index_text(texts, t.index)));
    let f = joined(joined(t.path, dirs[v]), name + ext);
    lemma_files_in_dirs_has(t.path, dirs, name, v, ext);
    lemma_themes_files_has(themes[path.last()], texts, name, u, f);
    let deep = tree_files(themes, texts, name, parents_of(ts, texts), set![theme]);
    if path.len() == 1 {
        lemma_concat_has(themes_files(ts, texts, name), deep, f);
    } else {
        let rest = path.skip(1);
        assert(inherits_from(themes, texts, path[0], path[1]));
        lemma_parents_of_has(themes, texts, theme, path[1]);
        assert forall|k: int| 0 <= k < rest.len() implies #[trigger] rest[k] == path[k + 1] by {}
        assert(inheritance_chain(themes, texts, rest)) by {
            assert forall|k: int| 0 <= k < rest.len() implies themes.contains_key(#[trigger] rest[k]) by {
                assert(themes.contains_key(path[k + 1]));
            }
            assert forall|k1: int, k2: int| 0 <= k1 < k2 < rest.len() implies #[trigger] rest[k1] != #[trigger] rest[k2] by {
                assert(path[k1 + 1] != path[k2 + 1]);
            }
            assert forall|k: int| 0 <= k < rest.len() - 1 implies inherits_from(themes, texts, #[trigger] rest[k], rest[k + 1]) by {
                assert(inherits_from(themes, texts, path[k + 1], path[k + 2]));
            }
        }
        assert forall|k: int| 0 <= k < rest.len() implies !set![theme].contains(#[trigger] rest[k]) by {
            assert(path[0] != path[k + 1]);
        }
        assert(rest.last() == path.last());
        assert(rest[0] == path[1]);
        lemma_chain_in_tree(themes, texts, name, parents_of(ts, texts), set![theme], rest, f);
        lemma_concat_has(themes_files(ts, texts, name), deep, f);
    }
    let own = theme_tree_files(themes, texts, name, ts, theme);
    lemma_concat_has(own, fallback_files(themes, texts, name), f);
    files::lemma_first_existing_member(files, own + fallback_files(themes, texts, name));
}

/// The `freedesktop` themes are always searched last: the files of each,
/// found in the directories that its recorded index file names, are among
/// those that a lookup in any theme tries, where some theme is installed to
/// start from.
pub proof fn lemma_freedesktop_searched(
    themes: Map<Seq<char>, Seq<ThemeView>>,
    texts: Map<Seq<char>, Seq<char>>,
    files: Set<Seq<char>>,
    theme: Seq<char>,
    name: Seq<char>,
    u: int,
    v: int,
    ext: Seq<char>,
)
    requires
        themes.dom().finite(),
        themes.contains_key("freedesktop"@),
        0 <= u < themes["freedesktop"@].len(),
        0 <= v < theme::parse::directory_names(ini_items(index_text(texts, themes["freedesktop"@][u].index))).len(),
        sound_ext(ext),
    ensures
        ({
            let t = themes["freedesktop"@][u];
            let dir = theme::parse::directory_names(ini_items(index_text(texts, t.index)))[v];
            let f = joined(joined(t.path, dir), name + ext);
            &&& search_files(themes, texts, theme, name) matches Some(c) && c.contains(f)
            &&& files.contains(f) ==> found_sound(themes, texts, files, theme, name) is Some
        }),
{
    let fd = themes["freedesktop"@];
    let t = fd[u];
    let dirs = theme::parse::directory_names(ini_items(index_text(texts, t.index)));
    let f = joined(joined(t.path, dirs[v]), name + ext);
    lemma_files_in_dirs_has(t.path, dirs, name, v, ext);
    lemma_themes_files_has(fd, texts, name, u, f);
    lemma_concat_has(
        themes_files(fd, texts, name),
        tree_files(themes, texts, name, parents_of(fd, texts), set!["freedesktop"@]),
        f,
    );
    let ts = primary_themes(themes, theme)->0;
    let own = theme_tree_files(themes, texts, name, ts, primary_name(themes, theme));
    lemma_concat_has(own, fallback_files(themes, texts, name), f);
    files::lemma_first_existing_member(files, own + fallback_files(themes, texts, name));
}

/// What a lookup finds is the first of the files it tries that exists: every
/// file tried before it is missing.
pub proof fn lemma_found_sound_first(
    themes: Map<Seq<char>, Seq<ThemeView>>,
    texts: Map<Seq<char>, Seq<char>>,
    files: Set<Seq<char>>,
    theme: Seq<char>,
    name: Seq<char>,
)
    ensures
        found_sound(themes, texts, files, theme, name) matches Some(p) ==> (search_files(themes, texts, theme, name) matches Some(
            c,
        ) && exists|i: int|
            0 <= i < c.len() && c[i] == p && files.contains(p) && forall|j: int| 0 <= j < i ==> !files.contains(#[trigger] c[j])),
{
    if let Some(c) = search_files(themes, texts, theme, name) {
        files::lemma_first_existing_is_first(files, c);
    }
}

/// The files of the theme `t`, found in the directories that its recorded
/// index file names, are among those that a lookup in `theme` tries, where
/// `t` is one of the themes installed under `theme`; a lookup finds a file
/// wherever one of those exists.
pub proof fn lemma_own_theme_searched(
    themes: Map<Seq<char>, Seq<ThemeView>>,
    texts: Map<Seq<char>, Seq<char>>,
    files: Set<Seq<char>>,
    theme: Seq<char>,
    name: Seq<char>,
    i: int,
    v: int,
    ext: Seq<char>,
)
    requires
        themes.dom().finite(),
        themes.contains_key(theme),
        0 <= i < themes[theme].len(),
        0 <= v < theme::parse::directory_names(ini_items(index_text(texts, themes[theme][i].index))).len(),
        sound_ext(ext),
    ensures
        ({
            let t = themes[theme][i];
            let dir = theme::parse::directory_names(ini_items(index_text(texts, t.index)))[v];
            let f = joined(joined(t.path, dir), name + ext);
            &&& search_files(themes, texts, theme, name) matches Some(c) && c.contains(f)
            &&& files.contains(f) ==> found_sound(themes, texts, files, theme, name) is Some
        }),
{
    let ts = themes[theme];
    let t = ts[i];
    let dirs = theme::parse::directory_names(ini_items(index_text(texts, t.index)));
    let f = joined(joined(t.path, dirs[v]), name + ext);
    lemma_files_in_dirs_has(t.path, dirs, name, v, ext);
    lemma_themes_files_has(ts, texts, name, i, f);
    let own = theme_tree_files(themes, texts, name, ts, theme);
    lemma_concat_has(
        themes_files(ts, texts, name),
        tree_files(themes, texts, name, parents_of(ts, texts), set![theme]),
        f,
    );
    lemma_concat_has(own, fallback_files(themes, texts, name), f);
    let c = own + fallback_files(themes, texts, name);
    files::lemma_first_existing_member(files, c);
}

/// Every theme that a theme's index file inherits from is searched, not only
/// the first: the files of each installed parent, found in the directories
/// that its recorded index file names, are among those that a lookup in the
/// theme tries; a lookup finds a file wherever one of those exists.
pub proof fn lemma_every_parent_searched(
    themes: Map<Seq<char>, Seq<ThemeView>>,
    texts: Map<Seq<char>, Seq<char>>,
    files: Set<Seq<char>>,
    theme: Seq<char>,
    name: Seq<char>,
    i: int,
    j: int,
    u: int,
    v: int,
    ext: Seq<char>,
)
    requires
        themes.dom().finite(),
        themes.contains_key(theme),
        0 <= i < themes[theme].len(),
        0 <= j < inherited(ini_items(index_text(texts, themes[theme][i].index))).len(),
        inherited(ini_items(index_text(texts, themes[theme][i].index)))[j] != theme,
        themes.contains_key(inherited(ini_items(index_text(texts, themes[theme][i].index)))[j]),
        0 <= u < themes[inherited(ini_items(index_text(texts, themes[theme][i].index)))[j]].len(),
        0 <= v < theme::parse::directory_names(
            ini_items(
                index_text(texts, themes[inherited(ini_items(index_text(texts, themes[theme][i].index)))[j]][u].index),
            ),
        ).len(),
        sound_ext(ext),
    ensures
        ({
            let p = inherited(ini_items(index_text(texts, themes[theme][i].index)))[j];
            let t = themes[p][u];
            let dir = theme::parse::directory_names(ini_items(index_text(texts, t.index)))[v];
            let f = joined(joined(t.path, dir), name + ext);
            &&& search_files(themes, texts, theme, name) matches Some(c) && c.contains(f)
            &&& files.contains(f) ==> found_sound(themes, texts, files, theme, name) is Some
        }),
{
    let ts = themes[theme];
    let p = inherited(ini_items(index_text(texts, ts[i].index)))[j];
    let t = themes[p][u];
    let dirs = theme::parse::directory_names(ini_items(index_text(texts, t.index)));
    let f = joined(joined(t.path, dirs[v]), name + ext);
    lemma_files_in_dirs_has(t.path, dirs, name, v, ext);
    lemma_themes_files_has(themes[p], texts, name, u, f);
    assert(inherited(ini_items(index_text(texts, ts[i].index))).contains(p));
    lemma_all_inherited_has(ts, texts, i, p);
    lemma_dedup_has(all_inherited(ts, texts), p);
    lemma_tree_files_has(themes, texts, name, parents_of(ts, texts), set![theme], p, f);
    let own = theme_tree_files(themes, texts, name, ts, theme);
    lemma_concat_has(
        themes_files(ts, texts, name),
        tree_files(themes, texts, name, parents_of(ts, texts), set![theme]),
        f,
    );
    lemma_concat_has(own, fallback_files(themes, texts, name), f);
    let c = own + fallback_files(themes, texts, name);
    files::lemma_first_existing_member(files, c);
}

/// Whether the line `l` starts with `Name=`.
pub open spec fn names_theme(l: Seq<char>) -> bool {
    "Name="@.len() <= l.len() && l.take("Name="@.len() as int) == "Name="@
}

/// The display name comes from the first line that starts with `Name=`: it is
/// the rest of that line with the white space cut off both ends, and nothing
/// else cut. Where no line starts so, there is none.
pub proof fn lemma_display_name_shape(lines: Seq<Seq<char>>)
    ensures
        display_name(lines) matches Some(n) ==> exists|i: int|
            0 <= i < lines.len() && names_theme(#[trigger] lines[i]) && (forall|j: int| 0 <= j < i ==> !names_theme(#[trigger] lines[j]))
                && text::trims_to(lines[i].skip("Name="@.len() as int), n),
        display_name(lines) is None <==> forall|i: int| 0 <= i < lines.len() ==> !names_theme(#[trigger] lines[i]),
    decreases lines.len(),
{
    if lines.len() > 0 {
        let rest = lines.drop_first();
        lemma_display_name_shape(rest);
        assert forall|i: int| 0 <= i < rest.len() implies #[trigger] rest[i] == lines[i + 1] by {}
        if names_theme(lines[0]) {
            text::lemma_trimmed_shape(lines[0].skip("Name="@.len() as int));
            assert(forall|j: int| 0 <= j < 0 ==> !names_theme(#[trigger] lines[j]));
        } else {
            if let Some(n) = display_name(lines) {
                let i = choose|i: int|
                    0 <= i < rest.len() && names_theme(#[trigger] rest[i]) && (forall|j: int|
                        0 <= j < i ==> !names_theme(#[trigger] rest[j])) && text::trims_to(rest[i].skip("Name="@.len() as int), n);
                assert(lines[i + 1] == rest[i]);
                assert forall|j: int| 0 <= j < i + 1 implies !names_theme(#[trigger] lines[j]) by {
                    if j > 0 {
                        assert(lines[j] == rest[j - 1]);
                    }
                }
            } else {
                assert forall|i: int| 0 <= i < lines.len() implies !names_theme(#[trigger] lines[i]) by {
                    if i > 0 {
                        assert(lines[i] == rest[i - 1]);
                    }
                }
            }
            if forall|i: int| 0 <= i < lines.len() ==> !names_theme(#[trigger] lines[i]) {
                assert forall|i: int| 0 <= i < rest.len() implies !names_theme(#[trigger] rest[i]) by {
                    assert(rest[i] == lines[i + 1]);
                }
            }
        }
    }
}

/// Repeating a lookup gives the same file: with the cache, the second lookup
/// answers from what the first recorded; without it, both search alike.
pub proof fn lemma_lookup_repeats(
    entries: Map<(Seq<char>, Seq<char>), EntryView>,
    use_cache: bool,
    themes: Map<Seq<char>, Seq<ThemeView>>,
    texts: Map<Seq<char>, Seq<char>>,
    files: Set<Seq<char>>,
    theme: Seq<char>,
    name: Seq<char>,
)
    ensures
        lookup_outcome(
            lookup_outcome(entries, use_cache, themes, texts, files, theme, name).1,
            use_cache,
            themes,
            texts,
            files,
            theme,
            name,
        ).0 == lookup_outcome(entries, use_cache, themes, texts, files, theme, name).0,
{
}

/// A lookup without the cache never reads it nor writes it: it finds what the
/// search finds, whatever the cache holds, and leaves the cache as it was.
pub proof fn lemma_no_cache_searches(
    entries: Map<(Seq<char>, Seq<char>), EntryView>,
    themes: Map<Seq<char>, Seq<ThemeView>>,
    texts: Map<Seq<char>, Seq<char>>,
    files: Set<Seq<char>>,
    theme: Seq<char>,
    name: Seq<char>,
)
    ensures
        lookup_outcome(entries, false, themes, texts, files, theme, name).0 == found_sound(
            themes,
            texts,
            files,
            theme,
            name,
        ),
        lookup_outcome(entries, false, themes, texts, files, theme, name).1 == entries,
{
}

/// The cache does not change what a lookup finds: where the cache holds only
/// what lookups without it find, a lookup through it finds what one without
/// it finds, and the cache still holds only such files afterwards.
pub proof fn lemma_cache_transparent(
    entries: Map<(Seq<char>, Seq<char>), EntryView>,
    use_cache: bool,
    themes: Map<Seq<char>, Seq<ThemeView>>,
    texts: Map<Seq<char>, Seq<char>>,
    files: Set<Seq<char>>,
    theme: Seq<char>,
    name: Seq<char>,
)
    requires
        cache_agrees(entries, themes, texts, files),
    ensures
        lookup_outcome(entries, use_cache, themes, texts, files, theme, name).0 == found_sound(
            themes,
            texts,
            files,
            theme,
            name,
        ),
        cache_agrees(lookup_outcome(entries, use_cache, themes, texts, files, theme, name).1, themes, texts, files),
{
    let after = lookup_outcome(entries, use_cache, themes, texts, files, theme, name).1;
    assert forall|k: (Seq<char>, Seq<char>)| #[trigger] after.contains_key(k) implies match after[k] {
        EntryView::Found(p) => found_sound(themes, texts, files, k.0, k.1) == Some(p),
        _ => true,
    } by {
        if k != (theme, name) {
            assert(entries.contains_key(k));
        } else if entries.contains_key(k) {
        }
    }
}

/// A theme that is not installed is looked up as `freedesktop`.
pub proof fn lemma_unknown_theme_falls_back(
    themes: Map<Seq<char>, Seq<ThemeView>>,
    texts: Map<Seq<char>, Seq<char>>,
    files: Set<Seq<char>>,
    theme: Seq<char>,
    name: Seq<char>,
)
    requires
        !themes.contains_key(theme),
    ensures
        found_sound(themes, texts, files, theme, name) == found_sound(themes, texts, files, "freedesktop"@, name),
        !themes.contains_key("freedesktop"@) ==> found_sound(themes, texts, files, theme, name) is None,
{
}

/// What a lookup finds exists and is one of the files it tries.
pub proof fn lemma_found_sound_exists(
    themes: Map<Seq<char>, Seq<ThemeView>>,
    texts: Map<Seq<char>, Seq<char>>,
    files: Set<Seq<char>>,
    theme: Seq<char>,
    name: Seq<char>,
)
    ensures
        found_sound(themes, texts, files, theme, name) matches Some(p) ==> {
            &&& files.contains(p)
            &&& search_files(themes, texts, theme, name) matches Some(c)
            &&& c.contains(p)
        },
{
    if let Some(c) = search_files(themes, texts, theme, name) {
        files::lemma_first_existing_member(files, c);
    }
}

} // verus!
