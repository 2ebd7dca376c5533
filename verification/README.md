# freedesktop_sound

Lookup of sound files by name and theme, after the freedesktop sound theme
specification, as a Verus-verified library.

- `src/` is the verified library. It decides; it does no I/O. A lookup works
  on what is known of the system: the installed themes (`theme::get_all_themes`
  builds them from what a scan of the base directories saw), the texts of
  their index files (`files::IndexFiles`) and the files that exist
  (`files::ExistingFiles`). `LookupBuilder::search_paths` lists the files that
  a lookup tries; `LookupBuilder::find` picks the first that exists, through
  the cache (`cache::Cache`) where asked to.
- `app/` does the I/O: it finds the XDG data directories, scans them, reads
  the index files and checks which files exist, then asks the library.
- `tests/` runs the library on installations described in the tests.
