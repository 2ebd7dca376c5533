//! A memo of earlier lookups, keyed by theme and sound name.
use vstd::prelude::*;

use crate::keyed::{has_key, keys_unique, lemma_pairs_at, lemma_pairs_empty, lemma_pairs_push, lemma_pairs_update, pairs_map};
use crate::text::opt_view;

verus! {

/// What the cache knows of a sound of a theme.
#[derive(Debug, Clone, PartialEq)]
pub enum CacheEntry {
    /// An earlier lookup found no file.
    NotFound,
    /// An earlier lookup found this file.
    Found(String),
    /// No earlier lookup was recorded.
    Unknown,
}

/// The mathematical value of a [`CacheEntry`].
pub enum EntryView {
    NotFound,
    Found(Seq<char>),
    Unknown,
}

impl View for CacheEntry {
    type V = EntryView;

    open spec fn view(&self) -> EntryView {
        match self {
            CacheEntry::NotFound => EntryView::NotFound,
            CacheEntry::Found(p) => EntryView::Found(p@),
            CacheEntry::Unknown => EntryView::Unknown,
        }
    }
}

/// The entry that records the outcome of a lookup.
pub open spec fn entry_for(sound: Option<Seq<char>>) -> EntryView {
    match sound {
        Some(p) => EntryView::Found(p),
        None => EntryView::NotFound,
    }
}

/// What `entries` holds for (`theme`, `sound`): `Unknown` where nothing is
/// recorded.
pub open spec fn entry_of(entries: Map<(Seq<char>, Seq<char>), EntryView>, theme: Seq<char>, sound: Seq<char>) -> EntryView {
    if entries.contains_key((theme, sound)) {
        entries[(theme, sound)]
    } else {
        EntryView::Unknown
    }
}

/// A read after a write gives what was written, and a write leaves the
/// entries of other themes and sounds as they were.
pub proof fn lemma_get_after_insert(
    entries: Map<(Seq<char>, Seq<char>), EntryView>,
    theme: Seq<char>,
    sound: Seq<char>,
    found: Option<Seq<char>>,
    other_theme: Seq<char>,
    other_sound: Seq<char>,
)
    ensures
        entry_of(entries.insert((theme, sound), entry_for(found)), theme, sound) == entry_for(found),
        (other_theme, other_sound) != (theme, sound) ==> entry_of(
            entries.insert((theme, sound), entry_for(found)),
            other_theme,
            other_sound,
        ) == entry_of(entries, other_theme, other_sound),
{
}

/// A new cache knows nothing, and a recorded lookup never reads as `Unknown`.
pub proof fn lemma_entries_known(theme: Seq<char>, sound: Seq<char>, found: Option<Seq<char>>)
    ensures
        entry_of(Map::empty(), theme, sound) == EntryView::Unknown,
        !(entry_for(found) is Unknown),
{
}

/// The entries that a new cache holds after recording `history` in order:
/// each record is a theme and a sound, and the file that its lookup found.
pub open spec fn replay(history: Seq<((Seq<char>, Seq<char>), Option<Seq<char>>)>) -> Map<
    (Seq<char>, Seq<char>),
    EntryView,
>
    decreases history.len(),
{
    if history.len() == 0 {
        Map::empty()
    } else {
        replay(history.drop_last()).insert(history.last().0, entry_for(history.last().1))
    }
}

/// What the last record of `key` in `history` found, if `key` was recorded.
pub open spec fn last_record(history: Seq<((Seq<char>, Seq<char>), Option<Seq<char>>)>, key: (Seq<char>, Seq<char>)) -> Option<
    Option<Seq<char>>,
>
    decreases history.len(),
{
    if history.len() == 0 {
        None
    } else if history.last().0 == key {
        Some(history.last().1)
    } else {
        last_record(history.drop_last(), key)
    }
}

/// A new cache holds the replay of no records, and each `insert` adds one
/// record: so the entries of a cache are the replay of its inserts.
pub proof fn lemma_replay_steps(
    history: Seq<((Seq<char>, Seq<char>), Option<Seq<char>>)>,
    theme: Seq<char>,
    sound: Seq<char>,
    found: Option<Seq<char>>,
)
    ensures
        replay(Seq::empty()) == Map::<(Seq<char>, Seq<char>), EntryView>::empty(),
        replay(history.push(((theme, sound), found))) == replay(history).insert((theme, sound), entry_for(found)),
{
    let h = history.push(((theme, sound), found));
    assert(h.drop_last() =~= history);
}

/// A read gives the entry of the last insert of its theme and sound, whatever
/// was inserted for other keys since; and `Unknown` where none was made.
pub proof fn lemma_get_last_insert(
    history: Seq<((Seq<char>, Seq<char>), Option<Seq<char>>)>,
    theme: Seq<char>,
    sound: Seq<char>,
)
    ensures
        entry_of(replay(history), theme, sound) == match last_record(history, (theme, sound)) {
            Some(found) => entry_for(found),
            None => EntryView::Unknown,
        },
    decreases history.len(),
{
    if history.len() > 0 {
        lemma_get_last_insert(history.drop_last(), theme, sound);
    }
}

/// A read gives `Unknown` exactly when its theme and sound were never
/// inserted.
pub proof fn lemma_unknown_iff_never_inserted(
    history: Seq<((Seq<char>, Seq<char>), Option<Seq<char>>)>,
    theme: Seq<char>,
    sound: Seq<char>,
)
    ensures
        (entry_of(replay(history), theme, sound) is Unknown) <==> forall|i: int|
            0 <= i < history.len() ==> (#[trigger] history[i]).0 != (theme, sound),
    decreases history.len(),
{
    lemma_get_last_insert(history, theme, sound);
    lemma_last_record_none(history, (theme, sound));
    if let Some(found) = last_record(history, (theme, sound)) {
        assert(!(entry_for(found) is Unknown));
    }
}

proof fn lemma_last_record_none(history: Seq<((Seq<char>, Seq<char>), Option<Seq<char>>)>, key: (Seq<char>, Seq<char>))
    ensures
        last_record(history, key) is None <==> forall|i: int| 0 <= i < history.len() ==> (#[trigger] history[i]).0 != key,
    decreases history.len(),
{
    if history.len() > 0 {
        let pre = history.drop_last();
        lemma_last_record_none(pre, key);
        assert forall|i: int| 0 <= i < pre.len() implies #[trigger] history[i] == pre[i] by {}
        if last_record(history, key) is None {
            assert forall|i: int| 0 <= i < history.len() implies (#[trigger] history[i]).0 != key by {
                if i < pre.len() {
                    assert(history[i] == pre[i]);
                }
            }
        } else if history.last().0 != key {
            let i = choose|i: int| 0 <= i < pre.len() && !((#[trigger] pre[i]).0 != key);
            assert(history[i] == pre[i]);
        } else {
            assert(history[history.len() - 1].0 == key);
        }
    }
}

struct Slot {
    theme: String,
    sound: String,
    entry: CacheEntry,
}

spec fn key_of(s: Slot) -> (Seq<char>, Seq<char>) {
    (s.theme@, s.sound@)
}

/// The slots as (key, entry) pairs.
spec fn pairs(slots: Seq<Slot>) -> Seq<((Seq<char>, Seq<char>), EntryView)> {
    slots.map_values(|s: Slot| (key_of(s), s.entry@))
}

/// Outcomes of earlier lookups, by theme and sound name.
pub struct Cache {
    slots: Vec<Slot>,
}

impl Cache {
    /// No two slots share a theme and a sound name, and no slot is `Unknown`.
    #[verifier::type_invariant]
    spec fn well_formed(&self) -> bool {
        &&& keys_unique(pairs(self.slots@))
        &&& forall|i: int| 0 <= i < self.slots@.len() ==> !(#[trigger] self.slots@[i].entry is Unknown)
    }

    /// The recorded entries, keyed by (theme, sound name).
    pub closed spec fn entries(&self) -> Map<(Seq<char>, Seq<char>), EntryView> {
        pairs_map(pairs(self.slots@))
    }

    /// An empty cache.
    pub fn new() -> (c: Cache)
        ensures
            c.entries() == Map::<(Seq<char>, Seq<char>), EntryView>::empty(),
    {
        let c = Cache { slots: Vec::new() };
        proof {
            lemma_pairs_empty(pairs(c.slots@));
        }
        c
    }

    /// The index of the slot of (`theme`, `sound`), if there is one.
    fn position(&self, theme: &String, sound: &String) -> (r: Option<usize>)
        ensures
            match r {
                Some(i) => i < self.slots@.len() && key_of(self.slots@[i as int]) == (theme@, sound@),
                None => !has_key(pairs(self.slots@), (theme@, sound@)),
            },
    {
        let mut i: usize = 0;
        while i < self.slots.len()
            invariant
                i <= self.slots@.len(),
                forall|j: int| 0 <= j < i ==> #[trigger] key_of(self.slots@[j]) != (theme@, sound@),
            decreases self.slots@.len() - i,
        {
            if self.slots[i].theme == *theme && self.slots[i].sound == *sound {
                return Some(i);
            }
            i = i + 1;
        }
        assert(!has_key(pairs(self.slots@), (theme@, sound@))) by {
            if has_key(pairs(self.slots@), (theme@, sound@)) {
                let j = choose|j: int| 0 <= j < pairs(self.slots@).len() && #[trigger] pairs(self.slots@)[j].0 == (theme@, sound@);
                assert(key_of(self.slots@[j]) == (theme@, sound@));
            }
        }
        None
    }

    /// Records the outcome of a lookup of `sound_name` in `theme`: the file
    /// found, or that none was found.
    pub fn insert(&mut self, theme: &str, sound_name: &str, sound_path: &Option<String>)
        ensures
            final(self).entries() == old(self).entries().insert(
                (theme@, sound_name@),
                entry_for(opt_view(*sound_path)),
            ),
    {
        proof {
            use_type_invariant(&*self);
        }
        let theme = theme.to_owned();
        let sound = sound_name.to_owned();
        let entry = match sound_path {
            Some(p) => CacheEntry::Found(p.clone()),
            None => CacheEntry::NotFound,
        };
        let ghost ps = pairs(self.slots@);
        let ghost x = ((theme@, sound@), entry@);
        match self.position(&theme, &sound) {
            Some(i) => {
                let slot = Slot { theme, sound, entry };
                proof {
                    lemma_pairs_update(ps, i as int, x);
                }
                let mut slots: Vec<Slot> = Vec::new();
                std::mem::swap(&mut slots, &mut self.slots);
                slots.set(i, slot);
                assert(pairs(slots@) =~= ps.update(i as int, x));
                self.slots = slots;
            },
            None => {
                let slot = Slot { theme, sound, entry };
                proof {
                    lemma_pairs_push(ps, x);
                }
                let mut slots: Vec<Slot> = Vec::new();
                std::mem::swap(&mut slots, &mut self.slots);
                slots.push(slot);
                assert(pairs(slots@) =~= ps.push(x));
                self.slots = slots;
            },
        }
    }

    /// What the cache holds for `sound_name` in `theme`: `Unknown` where nothing
    /// was recorded.
    pub fn get(&self, theme: &str, sound_name: &str) -> (r: CacheEntry)
        ensures
            r@ == entry_of(self.entries(), theme@, sound_name@),
    {
        proof {
            use_type_invariant(self);
        }
        let theme = theme.to_owned();
        let sound = sound_name.to_owned();
        match self.position(&theme, &sound) {
            Some(i) => {
                proof {
                    lemma_pairs_at(pairs(self.slots@), i as int);
                }
                let r = match &self.slots[i].entry {
                    CacheEntry::NotFound => CacheEntry::NotFound,
                    CacheEntry::Found(p) => CacheEntry::Found(p.clone()),
                    CacheEntry::Unknown => CacheEntry::Unknown,
                };
                r
            },
            None => CacheEntry::Unknown,
        }
    }
}

impl Default for Cache {
    /// An empty cache.
    fn default() -> (c: Cache)
        ensures
            c.entries() == Map::<(Seq<char>, Seq<char>), EntryView>::empty(),
    {
        Cache::new()
    }
}

} // verus!
