//! What a lookup knows of the file system: which files exist, and what the
//! index files of the themes hold.
use vstd::prelude::*;

use crate::keyed::{has_key, keys_unique, lemma_pairs_at, lemma_pairs_empty, lemma_pairs_push, lemma_pairs_update, pairs_map};

verus! {

/// A set of paths of files that exist.
pub struct ExistingFiles {
    paths: Vec<String>,
}

impl ExistingFiles {
    /// The paths in the set.
    pub closed spec fn paths(&self) -> Set<Seq<char>> {
        Set::new(|p: Seq<char>| exists|i: int| 0 <= i < self.paths@.len() && #[trigger] self.paths@[i]@ == p)
    }

    /// The empty set.
    pub fn new() -> (r: ExistingFiles)
        ensures
            r.paths() == Set::<Seq<char>>::empty(),
    {
        let r = ExistingFiles { paths: Vec::new() };
        assert(r.paths() =~= Set::<Seq<char>>::empty());
        r
    }

    /// Adds `path` to the set.
    pub fn add(&mut self, path: &str)
        ensures
            final(self).paths() == old(self).paths().insert(path@),
    {
        let ghost before = self.paths@;
        self.paths.push(path.to_owned());
        assert forall|p: Seq<char>| #[trigger] self.paths().contains(p) == old(self).paths().insert(
            path@,
        ).contains(p) by {
            if old(self).paths().contains(p) {
                let i = choose|i: int| 0 <= i < before.len() && #[trigger] before[i]@ == p;
                assert(self.paths@[i]@ == p);
            }
            if self.paths().contains(p) {
                let i = choose|i: int| 0 <= i < self.paths@.len() && #[trigger] self.paths@[i]@ == p;
                if i < before.len() {
                    assert(before[i]@ == p);
                }
            }
            assert(self.paths@[before.len() as int]@ == path@);
        }
        assert(self.paths() =~= old(self).paths().insert(path@));
    }

    /// Whether `path` is in the set.
    pub fn contains(&self, path: &String) -> (r: bool)
        ensures
            r == self.paths().contains(path@),
    {
        let mut i: usize = 0;
        while i < self.paths.len()
            invariant
                i <= self.paths@.len(),
                forall|j: int| 0 <= j < i ==> #[trigger] self.paths@[j]@ != path@,
            decreases self.paths@.len() - i,
        {
            if self.paths[i] == *path {
                assert(self.paths@[i as int]@ == path@);
                return true;
            }
            i = i + 1;
        }
        false
    }
}

/// The first of `candidates` that is in `files`.
pub open spec fn first_existing(files: Set<Seq<char>>, candidates: Seq<Seq<char>>) -> Option<Seq<char>>
    decreases candidates.len(),
{
    if candidates.len() == 0 {
        None
    } else if files.contains(candidates[0]) {
        Some(candidates[0])
    } else {
        first_existing(files, candidates.drop_first())
    }
}

/// Searching two lists one after the other is searching their concatenation.
pub proof fn lemma_first_existing_concat(files: Set<Seq<char>>, a: Seq<Seq<char>>, b: Seq<Seq<char>>)
    ensures
        first_existing(files, a + b) == match first_existing(files, a) {
            Some(p) => Some(p),
            None => first_existing(files, b),
        },
    decreases a.len(),
{
    if a.len() == 0 {
        assert(a + b =~= b);
    } else {
        assert((a + b).drop_first() =~= a.drop_first() + b);
        assert((a + b)[0] == a[0]);
        lemma_first_existing_concat(files, a.drop_first(), b);
    }
}

/// The file found is one of the candidates, and it exists; where none is
/// found, no candidate exists.
pub proof fn lemma_first_existing_member(files: Set<Seq<char>>, candidates: Seq<Seq<char>>)
    ensures
        first_existing(files, candidates) matches Some(p) ==> files.contains(p) && candidates.contains(p),
        first_existing(files, candidates) is None ==> forall|i: int|
            0 <= i < candidates.len() ==> !files.contains(#[trigger] candidates[i]),
    decreases candidates.len(),
{
    if candidates.len() > 0 {
        lemma_first_existing_member(files, candidates.drop_first());
        if let Some(p) = first_existing(files, candidates) {
            if p != candidates[0] {
                let i = choose|i: int| 0 <= i < candidates.drop_first().len() && candidates.drop_first()[i] == p;
                assert(candidates[i + 1] == p);
            }
        } else {
            assert forall|i: int| 0 <= i < candidates.len() implies !files.contains(#[trigger] candidates[i]) by {
                if i > 0 {
                    assert(candidates[i] == candidates.drop_first()[i - 1]);
                }
            }
        }
    }
}

/// The file found stands at some position of the candidates, and no
/// candidate before it exists.
pub proof fn lemma_first_existing_is_first(files: Set<Seq<char>>, candidates: Seq<Seq<char>>)
    ensures
        first_existing(files, candidates) matches Some(p) ==> exists|i: int|
            0 <= i < candidates.len() && candidates[i] == p && files.contains(p) && forall|j: int|
                0 <= j < i ==> !files.contains(#[trigger] candidates[j]),
    decreases candidates.len(),
{
    if candidates.len() > 0 {
        let rest = candidates.drop_first();
        lemma_first_existing_is_first(files, rest);
        if let Some(p) = first_existing(files, candidates) {
            if !files.contains(candidates[0]) {
                let i = choose|i: int|
                    0 <= i < rest.len() && rest[i] == p && files.contains(p) && forall|j: int|
                        0 <= j < i ==> !files.contains(#[trigger] rest[j]);
                assert(candidates[i + 1] == p);
                assert forall|j: int| 0 <= j < i + 1 implies !files.contains(#[trigger] candidates[j]) by {
                    if j > 0 {
                        assert(candidates[j] == rest[j - 1]);
                    }
                }
            } else {
                assert(forall|j: int| 0 <= j < 0 ==> !files.contains(#[trigger] candidates[j]));
            }
        }
    }
}

struct IndexSlot {
    path: String,
    contents: String,
}

/// The slots as (path, contents) pairs.
spec fn pairs(slots: Seq<IndexSlot>) -> Seq<(Seq<char>, Seq<char>)> {
    slots.map_values(|s: IndexSlot| (s.path@, s.contents@))
}

/// A map from strings to strings: the texts of index files by path, or the
/// index files of themes by theme name.
pub struct TextMap {
    slots: Vec<IndexSlot>,
}

/// The text of the index file at `path` in `files`: empty where it was not read, as a
/// file that cannot be read counts as empty.
pub open spec fn index_text(files: Map<Seq<char>, Seq<char>>, path: Seq<char>) -> Seq<char> {
    if files.contains_key(path) {
        files[path]
    } else {
        Seq::empty()
    }
}

impl TextMap {
    #[verifier::type_invariant]
    spec fn well_formed(&self) -> bool {
        keys_unique(pairs(self.slots@))
    }

    /// The value of each key.
    pub closed spec fn texts(&self) -> Map<Seq<char>, Seq<char>> {
        pairs_map(pairs(self.slots@))
    }

    /// The empty map.
    pub fn new() -> (r: TextMap)
        ensures
            r.texts() == Map::<Seq<char>, Seq<char>>::empty(),
    {
        let r = TextMap { slots: Vec::new() };
        proof {
            lemma_pairs_empty(pairs(r.slots@));
        }
        r
    }

    fn position(&self, path: &String) -> (r: Option<usize>)
        ensures
            match r {
                Some(i) => i < self.slots@.len() && self.slots@[i as int].path@ == path@,
                None => !has_key(pairs(self.slots@), path@),
            },
    {
        let mut i: usize = 0;
        while i < self.slots.len()
            invariant
                i <= self.slots@.len(),
                forall|j: int| 0 <= j < i ==> #[trigger] self.slots@[j].path@ != path@,
            decreases self.slots@.len() - i,
        {
            if self.slots[i].path == *path {
                return Some(i);
            }
            i = i + 1;
        }
        assert(!has_key(pairs(self.slots@), path@)) by {
            if has_key(pairs(self.slots@), path@) {
                let j = choose|j: int| 0 <= j < pairs(self.slots@).len() && #[trigger] pairs(self.slots@)[j].0 == path@;
                assert(self.slots@[j].path@ == path@);
            }
        }
        None
    }

    /// Maps `path` to `contents`.
    pub fn insert(&mut self, path: &str, contents: &str)
        ensures
            final(self).texts() == old(self).texts().insert(path@, contents@),
    {
        proof {
            use_type_invariant(&*self);
        }
        let path = path.to_owned();
        let slot = IndexSlot { path: path.clone(), contents: contents.to_owned() };
        let ghost ps = pairs(self.slots@);
        let ghost x = (path@, contents@);
        let mut slots: Vec<IndexSlot> = Vec::new();
        match self.position(&path) {
            Some(i) => {
                proof {
                    lemma_pairs_update(ps, i as int, x);
                }
                std::mem::swap(&mut slots, &mut self.slots);
                slots.set(i, slot);
                assert(pairs(slots@) =~= ps.update(i as int, x));
            },
            None => {
                proof {
                    lemma_pairs_push(ps, x);
                }
                std::mem::swap(&mut slots, &mut self.slots);
                slots.push(slot);
                assert(pairs(slots@) =~= ps.push(x));
            },
        }
        self.slots = slots;
    }

    /// The value of `key`, if it has one.
    pub fn get(&self, key: &String) -> (r: Option<String>)
        ensures
            match r {
                Some(v) => self.texts().contains_key(key@) && v@ == self.texts()[key@],
                None => !self.texts().contains_key(key@),
            },
    {
        proof {
            use_type_invariant(self);
        }
        match self.position(key) {
            Some(i) => {
                proof {
                    lemma_pairs_at(pairs(self.slots@), i as int);
                }
                Some(self.slots[i].contents.clone())
            },
            None => None,
        }
    }

    /// The text of the index file at `path`, empty where none was recorded.
    pub fn text_of(&self, path: &String) -> (r: String)
        ensures
            r@ == index_text(self.texts(), path@),
    {
        proof {
            use_type_invariant(self);
        }
        match self.position(path) {
            Some(i) => {
                proof {
                    lemma_pairs_at(pairs(self.slots@), i as int);
                }
                self.slots[i].contents.clone()
            },
            None => String::new(),
        }
    }
}

/// The texts of the index files of the themes, by path.
pub type IndexFiles = TextMap;

} // verus!
