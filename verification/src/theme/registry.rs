//! The installed sound themes by name, in the order of their names.
use vstd::prelude::*;

use super::{Theme, ThemeView};
use crate::text::{
    lemma_seq_less_irreflexive, lemma_seq_less_total, lemma_seq_less_transitive, same_text, seq_less,
    str_less,
};

verus! {

/// The views of a sequence of themes.
pub open spec fn theme_views(v: Seq<Theme>) -> Seq<ThemeView> {
    v.map_values(|t: Theme| t@)
}

struct Named {
    name: String,
    themes: Vec<Theme>,
}

spec fn names_sorted(s: Seq<Named>) -> bool {
    forall|i: int, j: int| 0 <= i < j < s.len() ==> seq_less(#[trigger] s[i].name@, #[trigger] s[j].name@)
}

spec fn has_name(s: Seq<Named>, k: Seq<char>) -> bool {
    exists|i: int| 0 <= i < s.len() && #[trigger] s[i].name@ == k
}

spec fn themes_of(e: Named) -> Seq<ThemeView> {
    theme_views(e.themes@)
}

spec fn named_map(s: Seq<Named>) -> Map<Seq<char>, Seq<ThemeView>> {
    Map::new(
        |k: Seq<char>| has_name(s, k),
        |k: Seq<char>| themes_of(s[choose|i: int| 0 <= i < s.len() && #[trigger] s[i].name@ == k]),
    )
}

/// In a sorted sequence a name stands at one index only.
proof fn lemma_sorted_unique(s: Seq<Named>, i: int, j: int)
    requires
        names_sorted(s),
        0 <= i < s.len(),
        0 <= j < s.len(),
        s[i].name@ == s[j].name@,
    ensures
        i == j,
{
    if i < j {
        lemma_seq_less_irreflexive(s[i].name@);
    } else if j < i {
        lemma_seq_less_irreflexive(s[i].name@);
    }
}

proof fn lemma_named_at(s: Seq<Named>, i: int)
    requires
        names_sorted(s),
        0 <= i < s.len(),
    ensures
        named_map(s).contains_key(s[i].name@),
        named_map(s)[s[i].name@] == theme_views(s[i].themes@),
{
    let k = s[i].name@;
    assert(has_name(s, k));
    lemma_sorted_unique_all(s);
}

proof fn lemma_sorted_unique_all(s: Seq<Named>)
    requires
        names_sorted(s),
    ensures
        forall|i: int, j: int|
            0 <= i < s.len() && 0 <= j < s.len() && #[trigger] s[i].name@ == #[trigger] s[j].name@ ==> i == j,
{
    assert forall|i: int, j: int|
        0 <= i < s.len() && 0 <= j < s.len() && #[trigger] s[i].name@ == #[trigger] s[j].name@ implies i == j by {
        lemma_sorted_unique(s, i, j);
    }
}

/// The themes `themes` with `theme` added under `name`.
pub open spec fn add_theme(themes: Map<Seq<char>, Seq<ThemeView>>, name: Seq<char>, theme: ThemeView) -> Map<
    Seq<char>,
    Seq<ThemeView>,
> {
    themes.insert(
        name,
        if themes.contains_key(name) {
            themes[name].push(theme)
        } else {
            seq![theme]
        },
    )
}

/// Sound themes by name; under one name stand the directories of that name
/// under every base directory, in the order in which they were found.
pub struct SoundThemes {
    entries: Vec<Named>,
}

impl SoundThemes {
    /// The names stand in strictly increasing order.
    #[verifier::type_invariant]
    spec fn well_formed(&self) -> bool {
        names_sorted(self.entries@)
    }

    /// The themes under each name.
    pub closed spec fn themes(&self) -> Map<Seq<char>, Seq<ThemeView>> {
        named_map(self.entries@)
    }

    /// The names, in increasing order.
    pub closed spec fn names(&self) -> Seq<Seq<char>> {
        self.entries@.map_values(|e: Named| e.name@)
    }

    /// Finitely many names have themes.
    pub proof fn lemma_finite(&self)
        ensures
            self.themes().dom().finite(),
    {
        let s = self.entries@;
        let names = s.map_values(|e: Named| e.name@);
        assert(self.themes().dom() =~= names.to_set()) by {
            assert forall|k: Seq<char>| self.themes().dom().contains(k) implies names.to_set().contains(k) by {
                let i = choose|i: int| 0 <= i < s.len() && #[trigger] s[i].name@ == k;
                assert(names[i] == k);
            }
            assert forall|k: Seq<char>| names.to_set().contains(k) implies self.themes().dom().contains(k) by {
                let i = choose|i: int| 0 <= i < names.len() && names[i] == k;
                assert(s[i].name@ == k);
            }
        }
        vstd::seq_lib::seq_to_set_is_finite(names);
    }

    /// No themes.
    pub fn new() -> (r: SoundThemes)
        ensures
            r.themes() == Map::<Seq<char>, Seq<ThemeView>>::empty(),
            r.names() == Seq::<Seq<char>>::empty(),
    {
        let r = SoundThemes { entries: Vec::new() };
        assert(r.names() =~= Seq::<Seq<char>>::empty());
        assert(r.themes() =~= Map::<Seq<char>, Seq<ThemeView>>::empty());
        r
    }

    /// The first index whose name does not come before `name`.
    fn position(&self, name: &str) -> (r: usize)
        ensures
            r <= self.entries@.len(),
            forall|j: int| 0 <= j < r ==> seq_less(#[trigger] self.entries@[j].name@, name@),
            r < self.entries@.len() ==> !seq_less(self.entries@[r as int].name@, name@),
    {
        let mut i: usize = 0;
        while i < self.entries.len()
            invariant
                i <= self.entries@.len(),
                forall|j: int| 0 <= j < i ==> seq_less(#[trigger] self.entries@[j].name@, name@),
            decreases self.entries@.len() - i,
        {
            if !str_less(self.entries[i].name.as_str(), name) {
                return i;
            }
            i = i + 1;
        }
        i
    }

    /// The themes under `name`, if there are any.
    pub fn get(&self, name: &str) -> (r: Option<&Vec<Theme>>)
        ensures
            match r {
                Some(v) => self.themes().contains_key(name@) && theme_views(v@) == self.themes()[name@],
                None => !self.themes().contains_key(name@),
            },
    {
        proof {
            use_type_invariant(self);
        }
        let p = self.position(name);
        if p < self.entries.len() && same_text(self.entries[p].name.as_str(), name) {
            proof {
                let k = name@;
                assert(has_name(self.entries@, k));
                let c = choose|i: int| 0 <= i < self.entries@.len() && #[trigger] self.entries@[i].name@ == k;
                lemma_sorted_unique(self.entries@, c, p as int);
            }
            Some(&self.entries[p].themes)
        } else {
            proof {
                if has_name(self.entries@, name@) {
                    let c = choose|i: int| 0 <= i < self.entries@.len() && #[trigger] self.entries@[i].name@ == name@;
                    if c < p {
                        lemma_seq_less_irreflexive(name@);
                    } else if c > p {
                        if p < self.entries@.len() {
                            lemma_seq_less_total(self.entries@[p as int].name@, name@);
                            lemma_seq_less_transitive(name@, self.entries@[p as int].name@, name@);
                            lemma_seq_less_irreflexive(name@);
                        }
                    }
                }
            }
            None
        }
    }

    /// Whether there are themes under `name`.
    pub fn contains_key(&self, name: &str) -> (r: bool)
        ensures
            r == self.themes().contains_key(name@),
    {
        self.get(name).is_some()
    }

    /// Adds `theme` at the end of the themes under `name`.
    pub fn push(&mut self, name: &str, theme: Theme)
        ensures
            final(self).themes() == add_theme(old(self).themes(), name@, theme@),
    {
        proof {
            use_type_invariant(&*self);
        }
        let ghost old_entries = self.entries@;
        let ghost tv = theme@;
        let p = self.position(name);
        let mut entries: Vec<Named> = Vec::new();
        std::mem::swap(&mut entries, &mut self.entries);
        if p < entries.len() && same_text(entries[p].name.as_str(), name) {
            let mut e = entries.remove(p);
            let ghost old_themes = theme_views(e.themes@);
            e.themes.push(theme);
            assert(theme_views(e.themes@) =~= old_themes.push(tv));
            entries.insert(p, e);
            proof {
                let s = entries@;
                assert(s =~= old_entries.update(p as int, e));
                assert forall|j: int| 0 <= j < s.len() implies #[trigger] s[j].name@ == old_entries[j].name@ by {}
                assert(names_sorted(s));
                assert forall|k: Seq<char>| #[trigger] has_name(s, k) == has_name(old_entries, k) by {
                    if has_name(s, k) {
                        let j = choose|j: int| 0 <= j < s.len() && #[trigger] s[j].name@ == k;
                        assert(old_entries[j].name@ == k);
                    }
                    if has_name(old_entries, k) {
                        let j = choose|j: int| 0 <= j < old_entries.len() && #[trigger] old_entries[j].name@ == k;
                        assert(s[j].name@ == k);
                    }
                }
                assert(has_name(old_entries, name@)) by {
                    assert(old_entries[p as int].name@ == name@);
                }
                assert(named_map(s) =~= add_theme(named_map(old_entries), name@, tv)) by {
                    assert forall|k: Seq<char>| has_name(s, k) implies #[trigger] named_map(s)[k]
                        == add_theme(named_map(old_entries), name@, tv)[k] by {
                        let j = choose|j: int| 0 <= j < s.len() && #[trigger] s[j].name@ == k;
                        let j2 = choose|j: int| 0 <= j < old_entries.len() && #[trigger] old_entries[j].name@ == k;
                        assert(s[j2].name@ == k);
                        lemma_sorted_unique(s, j, j2);
                        if k == name@ {
                            lemma_sorted_unique(s, j, p as int);
                        }
                    }
                }
            }
        } else {
            let mut v: Vec<Theme> = Vec::new();
            v.push(theme);
            let e = Named { name: name.to_owned(), themes: v };
            assert(theme_views(e.themes@) =~= seq![tv]);
            entries.insert(p, e);
            proof {
                let s = entries@;
                let n = old_entries.len() as int;
                assert(s =~= old_entries.insert(p as int, e));
                if p < n {
                    lemma_seq_less_total(old_entries[p as int].name@, name@);
                }
                assert forall|j: int| 0 <= j < s.len() && j != p implies seq_less(#[trigger] s[j].name@, name@)
                    == (j < p) by {
                    if j < p {
                    } else {
                        assert(s[j] == old_entries[j - 1]);
                        if j - 1 > p {
                            assert(seq_less(old_entries[p as int].name@, old_entries[j - 1].name@));
                            lemma_seq_less_transitive(name@, old_entries[p as int].name@, old_entries[j - 1].name@);
                        }
                        if seq_less(s[j].name@, name@) {
                            lemma_seq_less_transitive(name@, s[j].name@, name@);
                            lemma_seq_less_irreflexive(name@);
                        }
                    }
                }
                assert(names_sorted(s)) by {
                    assert forall|i: int, j: int| 0 <= i < j < s.len() implies seq_less(
                        #[trigger] s[i].name@,
                        #[trigger] s[j].name@,
                    ) by {
                        if i == p {
                            assert(seq_less(name@, s[j].name@)) by {
                                assert(s[j] == old_entries[j - 1]);
                                if j - 1 > p {
                                    assert(seq_less(old_entries[p as int].name@, old_entries[j - 1].name@));
                                    lemma_seq_less_transitive(name@, old_entries[p as int].name@, old_entries[j - 1].name@);
                                }
                            }
                        } else if j == p {
                        } else {
                            let i0 = if i < p { i } else { i - 1 };
                            let j0 = if j < p { j } else { j - 1 };
                            assert(s[i] == old_entries[i0]);
                            assert(s[j] == old_entries[j0]);
                        }
                    }
                }
                assert(!has_name(old_entries, name@)) by {
                    if has_name(old_entries, name@) {
                        let c = choose|j: int| 0 <= j < old_entries.len() && #[trigger] old_entries[j].name@ == name@;
                        if c < p {
                            lemma_seq_less_irreflexive(name@);
                        } else {
                            if c > p {
                                assert(seq_less(old_entries[p as int].name@, old_entries[c].name@));
                                lemma_seq_less_transitive(name@, old_entries[p as int].name@, name@);
                            }
                            lemma_seq_less_irreflexive(name@);
                        }
                    }
                }
                assert forall|k: Seq<char>| #[trigger] has_name(s, k) == (has_name(old_entries, k) || k == name@) by {
                    assert(s[p as int].name@ == name@);
                    if has_name(s, k) {
                        let j = choose|j: int| 0 <= j < s.len() && #[trigger] s[j].name@ == k;
                        if j < p {
                            assert(old_entries[j].name@ == k);
                        } else if j > p {
                            assert(old_entries[j - 1].name@ == k);
                        }
                    }
                    if has_name(old_entries, k) {
                        let j = choose|j: int| 0 <= j < old_entries.len() && #[trigger] old_entries[j].name@ == k;
                        if j < p {
                            assert(s[j].name@ == k);
                        } else {
                            assert(s[j + 1].name@ == k);
                        }
                    }
                }
                assert(named_map(s) =~= add_theme(named_map(old_entries), name@, tv)) by {
                    assert forall|k: Seq<char>| has_name(s, k) implies #[trigger] named_map(s)[k]
                        == add_theme(named_map(old_entries), name@, tv)[k] by {
                        let j = choose|j: int| 0 <= j < s.len() && #[trigger] s[j].name@ == k;
                        if k == name@ {
                            lemma_sorted_unique(s, j, p as int);
                        } else {
                            let j2 = choose|j: int| 0 <= j < old_entries.len() && #[trigger] old_entries[j].name@ == k;
                            let j3 = if j2 < p { j2 } else { j2 + 1 };
                            assert(s[j3] == old_entries[j2]);
                            lemma_sorted_unique(s, j, j3);
                        }
                    }
                }
            }
        }
        self.entries = entries;
    }

    /// How many names there are.
    pub fn len(&self) -> (r: usize)
        ensures
            r == self.names().len(),
    {
        self.entries.len()
    }

    /// The `i`-th name, in increasing order, and the themes under it.
    pub fn entry(&self, i: usize) -> (r: (&String, &Vec<Theme>))
        requires
            i < self.names().len(),
        ensures
            r.0@ == self.names()[i as int],
            i > 0 ==> seq_less(self.names()[i - 1], r.0@),
            self.themes().contains_key(r.0@),
            theme_views(r.1@) == self.themes()[r.0@],
    {
        proof {
            use_type_invariant(self);
            lemma_named_at(self.entries@, i as int);
            if i > 0 {
                assert(seq_less(self.entries@[i - 1].name@, self.entries@[i as int].name@));
            }
        }
        let e = &self.entries[i];
        (&e.name, &e.themes)
    }
}

} // verus!
