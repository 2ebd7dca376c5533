//! Paths of theme directories and of their index files.
use vstd::prelude::*;

use crate::text::{join_path, joined};

verus! {

/// Why a theme directory is no theme.
#[derive(Debug)]
pub enum ThemeError {
    /// The directory holds no `index.theme`; the path is the one looked for.
    ThemeIndexNotFound(String),
}

/// The directory of a sound theme.
#[derive(Debug, Clone)]
pub struct ThemePath(pub String);

/// The path of the index file of the theme directory `dir`.
pub open spec fn index_path_of(dir: Seq<char>) -> Seq<char> {
    joined(dir, "index.theme"@)
}

impl ThemePath {
    /// Where the index file of this theme lies.
    pub fn index_path(&self) -> (r: String)
        ensures
            r@ == index_path_of(self.0@),
    {
        join_path(self.0.as_str(), "index.theme")
    }

    /// The index file of this theme, given whether it exists: an error that
    /// names the path where it does not.
    pub fn index(&self, index_exists: bool) -> (r: Result<String, ThemeError>)
        ensures
            match r {
                Ok(p) => index_exists && p@ == index_path_of(self.0@),
                Err(ThemeError::ThemeIndexNotFound(p)) => !index_exists && p@ == index_path_of(
                    self.0@,
                ),
            },
    {
        let index = self.index_path();
        if !index_exists {
            return Err(ThemeError::ThemeIndexNotFound(index));
        }
        Ok(index)
    }
}

/// The directories where sound themes may lie: `sounds` under each XDG
/// data directory, in order.
pub open spec fn sounds_dirs(data_dirs: Seq<Seq<char>>) -> Seq<Seq<char>>
    decreases data_dirs.len(),
{
    if data_dirs.len() == 0 {
        Seq::empty()
    } else {
        sounds_dirs(data_dirs.drop_last()).push(joined(data_dirs.last(), "sounds"@))
    }
}

/// The candidate sound theme base directories for the XDG data directories
/// `data_dirs`: `sounds` under each, in order. Which of them exist is for
/// the caller to find out.
pub fn sound_theme_base_paths(data_dirs: &Vec<String>) -> (r: Vec<String>)
    ensures
        crate::text::views(r@) == sounds_dirs(crate::text::views(data_dirs@)),
{
    let ghost dv = crate::text::views(data_dirs@);
    let mut r: Vec<String> = Vec::new();
    let mut i: usize = 0;
    while i < data_dirs.len()
        invariant
            i <= data_dirs@.len(),
            dv == crate::text::views(data_dirs@),
            crate::text::views(r@) == sounds_dirs(dv.take(i as int)),
        decreases data_dirs@.len() - i,
    {
        let d = join_path(data_dirs[i].as_str(), "sounds");
        proof {
            assert(dv.take(i + 1).drop_last() == dv.take(i as int));
        }
        let ghost before = crate::text::views(r@);
        r.push(d);
        assert(crate::text::views(r@) =~= before.push(d@));
        i = i + 1;
    }
    assert(dv.take(i as int) =~= dv);
    r
}

} // verus!
