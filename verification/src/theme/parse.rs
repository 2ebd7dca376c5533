//! What a theme's index file says: its sound directories and the themes it
//! inherits from.
use vstd::prelude::*;

use super::Theme;
use crate::text::{is_part, same_text, split_chars, split_seq, views};

verus! {

/// One item of an INI document, as `ini_core` reports it.
#[derive(Debug)]
pub enum IniItem {
    /// A line that starts with `[` but is no well-formed section header.
    Error(String),
    /// A section header, with the name between the brackets.
    Section(String),
    /// The mark that stands before each section header and at the end.
    SectionEnd,
    /// A `key=value` line; the value is `None` where the line holds no `=`.
    Property(String, Option<String>),
    /// A comment line, without its leading `;`.
    Comment(String),
    /// An empty line.
    Blank,
}

/// The mathematical value of an [`IniItem`].
pub enum IniEntry {
    Error(Seq<char>),
    Section(Seq<char>),
    SectionEnd,
    Property(Seq<char>, Option<Seq<char>>),
    Comment(Seq<char>),
    Blank,
}

impl View for IniItem {
    type V = IniEntry;

    open spec fn view(&self) -> IniEntry {
        match self {
            IniItem::Error(e) => IniEntry::Error(e@),
            IniItem::Section(s) => IniEntry::Section(s@),
            IniItem::SectionEnd => IniEntry::SectionEnd,
            IniItem::Property(k, v) => IniEntry::Property(
                k@,
                match v {
                    Some(v) => Some(v@),
                    None => None,
                },
            ),
            IniItem::Comment(c) => IniEntry::Comment(c@),
            IniItem::Blank => IniEntry::Blank,
        }
    }
}

/// The views of a sequence of INI items.
pub open spec fn item_views(items: Seq<IniItem>) -> Seq<IniEntry> {
    items.map_values(|i: IniItem| i@)
}

/// The items that `ini_core::Parser` yields for a document, in order.
pub uninterp spec fn ini_items(document: Seq<char>) -> Seq<IniEntry>;

/// Whether every string that `item` carries is a contiguous part of `doc`.
pub open spec fn holds_parts_of(item: IniEntry, doc: Seq<char>) -> bool {
    match item {
        IniEntry::Error(x) => is_part(x, doc),
        IniEntry::Section(x) => is_part(x, doc),
        IniEntry::Property(k, v) => is_part(k, doc) && match v {
            Some(w) => is_part(w, doc),
            None => true,
        },
        IniEntry::Comment(x) => is_part(x, doc),
        _ => true,
    }
}

/// Parses `document` with `ini_core::Parser::new`, with the default comment
/// character and without trimming, and returns every item that the parser
/// yields, in order. Trusted: the result is `ini_items` of the document, a
/// function of the document alone, and every string an item carries is a
/// slice of the document (the parser cuts its items out of the input and
/// copies nothing).
#[verifier::external_body]
fn parse_ini(document: &str) -> (items: Vec<IniItem>)
    ensures
        item_views(items@) == ini_items(document@),
        forall|k: int| 0 <= k < items@.len() ==> holds_parts_of(#[trigger] item_views(items@)[k], document@),
{
    let mut items = Vec::new();
    for item in ini_core::Parser::new(document) {
        items.push(match item {
            ini_core::Item::Error(e) => IniItem::Error(e.to_string()),
            ini_core::Item::Section(s) => IniItem::Section(s.to_string()),
            ini_core::Item::SectionEnd => IniItem::SectionEnd,
            ini_core::Item::Property(k, v) => IniItem::Property(k.to_string(), v.map(str::to_string)),
            ini_core::Item::Comment(c) => IniItem::Comment(c.to_string()),
            ini_core::Item::Blank => IniItem::Blank,
        });
    }
    items
}

/// The properties with a value of the first `[Sound Theme]` section of
/// `items`, in order, where `inside` says whether that section is already open:
/// it closes at the next header of another name.
pub open spec fn section_props(items: Seq<IniEntry>, inside: bool) -> Seq<(Seq<char>, Seq<char>)>
    decreases items.len(),
{
    if items.len() == 0 {
        Seq::empty()
    } else {
        let rest = items.drop_first();
        match items[0] {
            IniEntry::Section(name) => if name == "Sound Theme"@ {
                section_props(rest, true)
            } else if inside {
                Seq::empty()
            } else {
                section_props(rest, false)
            },
            IniEntry::Property(k, Some(v)) => if inside {
                seq![(k, v)] + section_props(rest, true)
            } else {
                section_props(rest, false)
            },
            _ => section_props(rest, inside),
        }
    }
}

/// The `key=value` pairs of the `[Sound Theme]` section of a document.
pub open spec fn sound_theme_props(items: Seq<IniEntry>) -> Seq<(Seq<char>, Seq<char>)> {
    section_props(items, false)
}

/// The names of all sections but `[Sound Theme]`, in order: the directories
/// of a theme.
pub open spec fn directory_names(items: Seq<IniEntry>) -> Seq<Seq<char>>
    decreases items.len(),
{
    if items.len() == 0 {
        Seq::empty()
    } else {
        let prev = directory_names(items.drop_last());
        match items.last() {
            IniEntry::Section(name) => if name != "Sound Theme"@ {
                prev.push(name)
            } else {
                prev
            },
            _ => prev,
        }
    }
}

/// The value of the first pair of `props` with key `key`.
pub open spec fn first_value(props: Seq<(Seq<char>, Seq<char>)>, key: Seq<char>) -> Option<Seq<char>>
    decreases props.len(),
{
    if props.len() == 0 {
        None
    } else if props[0].0 == key {
        Some(props[0].1)
    } else {
        first_value(props.drop_first(), key)
    }
}

/// `names` without `freedesktop`, which every theme inherits from anyway.
pub open spec fn without_base(names: Seq<Seq<char>>) -> Seq<Seq<char>>
    decreases names.len(),
{
    if names.len() == 0 {
        Seq::empty()
    } else if names.last() == "freedesktop"@ {
        without_base(names.drop_last())
    } else {
        without_base(names.drop_last()).push(names.last())
    }
}

/// The themes that a document inherits from: its `Inherits` value split at
/// commas, without `freedesktop`; none where the section names no parent.
pub open spec fn inherited(items: Seq<IniEntry>) -> Seq<Seq<char>> {
    match first_value(sound_theme_props(items), "Inherits"@) {
        Some(v) => without_base(split_seq(v, ',')),
        None => Seq::empty(),
    }
}

/// A sound directory named in a theme's index file.
#[derive(Debug)]
pub struct Directory {
    pub name: String,
}

/// The `key=value` pairs of the first `[Sound Theme]` section of `items`.
pub fn sound_theme_section(items: &Vec<IniItem>) -> (r: Vec<(String, String)>)
    ensures
        r@.map_values(|p: (String, String)| (p.0@, p.1@)) == sound_theme_props(item_views(items@)),
{
    let ghost all = item_views(items@);
    let mut r: Vec<(String, String)> = Vec::new();
    let mut inside = false;
    let mut i: usize = 0;
    assert(all.skip(0) =~= all);
    assert(r@.map_values(|p: (String, String)| (p.0@, p.1@)) + section_props(all, false) =~= section_props(all, false));
    while i < items.len()
        invariant
            i <= items@.len(),
            all == item_views(items@),
            r@.map_values(|p: (String, String)| (p.0@, p.1@)) + section_props(all.skip(i as int), inside)
                == sound_theme_props(all),
        decreases items@.len() - i,
    {
        let ghost before = r@.map_values(|p: (String, String)| (p.0@, p.1@));
        proof {
            assert(all.skip(i as int).drop_first() == all.skip(i + 1));
            assert(all.skip(i as int)[0] == items@[i as int]@);
        }
        match &items[i] {
            IniItem::Section(name) => {
                if same_text(name.as_str(), "Sound Theme") {
                    inside = true;
                } else if inside {
                    assert(before + section_props(all.skip(i as int), true) =~= before);
                    return r;
                }
            },
            IniItem::Property(k, Some(v)) => {
                if inside {
                    r.push((k.clone(), v.clone()));
                    assert(r@.map_values(|p: (String, String)| (p.0@, p.1@)) =~= before.push((k@, v@)));
                    assert(before.push((k@, v@)) + section_props(all.skip(i + 1), true) =~= before + (seq![(k@, v@)] + section_props(all.skip(i + 1), true)));
                }
            },
            _ => {},
        }
        i = i + 1;
    }
    assert(all.skip(i as int) =~= Seq::<IniEntry>::empty());
    assert(r@.map_values(|p: (String, String)| (p.0@, p.1@)) + Seq::empty() =~= r@.map_values(|p: (String, String)| (p.0@, p.1@)));
    r
}

/// The directories that the sections of `items` name: every section but
/// `[Sound Theme]`, in order.
pub fn directories_of(items: &Vec<IniItem>) -> (r: Vec<Directory>)
    ensures
        r@.map_values(|d: Directory| d.name@) == directory_names(item_views(items@)),
{
    let ghost all = item_views(items@);
    let mut r: Vec<Directory> = Vec::new();
    let mut i: usize = 0;
    while i < items.len()
        invariant
            i <= items@.len(),
            all == item_views(items@),
            r@.map_values(|d: Directory| d.name@) == directory_names(all.take(i as int)),
        decreases items@.len() - i,
    {
        proof {
            assert(all.take(i + 1).drop_last() == all.take(i as int));
            assert(all.take(i + 1).last() == items@[i as int]@);
        }
        let ghost before = r@.map_values(|d: Directory| d.name@);
        match &items[i] {
            IniItem::Section(name) => {
                if !same_text(name.as_str(), "Sound Theme") {
                    r.push(Directory { name: name.clone() });
                    assert(r@.map_values(|d: Directory| d.name@) =~= before.push(name@));
                }
            },
            _ => {},
        }
        i = i + 1;
    }
    assert(all.take(i as int) =~= all);
    r
}

/// The themes that `items` inherit from: the value of the first `Inherits`
/// key of the `[Sound Theme]` section, split at commas, without
/// `freedesktop`.
pub fn inherits_of(items: &Vec<IniItem>) -> (r: Vec<String>)
    ensures
        views(r@) == inherited(item_views(items@)),
{
    let props = sound_theme_section(items);
    let ghost pv = props@.map_values(|p: (String, String)| (p.0@, p.1@));
    let mut i: usize = 0;
    assert(pv.skip(0) =~= pv);
    while i < props.len()
        invariant
            i <= props@.len(),
            pv == props@.map_values(|p: (String, String)| (p.0@, p.1@)),
            pv == sound_theme_props(item_views(items@)),
            first_value(pv.skip(i as int), "Inherits"@) == first_value(pv, "Inherits"@),
        decreases props@.len() - i,
    {
        proof {
            assert(pv.skip(i as int).drop_first() == pv.skip(i + 1));
            assert(pv.skip(i as int)[0] == (props@[i as int].0@, props@[i as int].1@));
        }
        if same_text(props[i].0.as_str(), "Inherits") {
            let parts = split_chars(props[i].1.as_str(), ',');
            let ghost pieces = split_seq(props@[i as int].1@, ',');
            let mut r: Vec<String> = Vec::new();
            let mut j: usize = 0;
            assert(pieces.take(0) =~= Seq::<Seq<char>>::empty());
            while j < parts.len()
                invariant
                    j <= parts@.len(),
                    views(parts@) == pieces,
                    views(r@) == without_base(pieces.take(j as int)),
                decreases parts@.len() - j,
            {
                proof {
                    assert(pieces.take(j + 1).drop_last() == pieces.take(j as int));
                    assert(pieces.take(j + 1).last() == parts@[j as int]@);
                }
                let is_base = same_text(parts[j].as_str(), "freedesktop");
                if !is_base {
                    r.push(parts[j].clone());
                    assert(views(r@) =~= without_base(pieces.take(j as int)).push(parts@[j as int]@));
                } else {
                    assert(views(r@) =~= without_base(pieces.take(j + 1)));
                }
                j = j + 1;
            }
            assert(pieces.take(j as int) =~= pieces);
            return r;
        }
        i = i + 1;
    }
    assert(pv.skip(i as int) =~= Seq::<(Seq<char>, Seq<char>)>::empty());
    Vec::new()
}

impl Theme {
    /// The sound directories that the index file `file` names.
    pub fn get_all_directories(&self, file: &str) -> (r: Vec<Directory>)
        ensures
            r@.map_values(|d: Directory| d.name@) == directory_names(ini_items(file@)),
    {
        let items = parse_ini(file);
        directories_of(&items)
    }

    /// The themes that the index file `file` inherits from, `freedesktop`
    /// left out; each name stands in `file`.
    pub fn inherits(&self, file: &str) -> (r: Vec<String>)
        ensures
            views(r@) == inherited(ini_items(file@)),
            forall|i: int| 0 <= i < r@.len() ==> is_part(#[trigger] r@[i]@, file@),
    {
        let items = parse_ini(file);
        proof {
            lemma_inherited_parts(item_views(items@), file@);
        }
        let r = inherits_of(&items);
        assert forall|i: int| 0 <= i < r@.len() implies is_part(#[trigger] r@[i]@, file@) by {
            assert(views(r@)[i] == r@[i]@);
        }
        r
    }
}

/// No inherited theme is `freedesktop`, and no inherited name holds a
/// comma.
pub proof fn lemma_inherited_not_base(items: Seq<IniEntry>)
    ensures
        forall|i: int| 0 <= i < inherited(items).len() ==> #[trigger] inherited(items)[i] != "freedesktop"@,
        forall|i: int| 0 <= i < inherited(items).len() ==> !(#[trigger] inherited(items)[i]).contains(','),
{
    if let Some(v) = first_value(sound_theme_props(items), "Inherits"@) {
        lemma_without_base(split_seq(v, ','));
        crate::text::lemma_split_seq_no_sep(v, ',');
        let pieces = split_seq(v, ',');
        assert forall|i: int| 0 <= i < inherited(items).len() implies !(#[trigger] inherited(items)[i]).contains(',') by {
            assert(pieces.contains(inherited(items)[i]));
            let k = choose|k: int| 0 <= k < pieces.len() && pieces[k] == inherited(items)[i];
            assert(!pieces[k].contains(','));
        }
    }
}

proof fn lemma_without_base(names: Seq<Seq<char>>)
    ensures
        forall|i: int| 0 <= i < without_base(names).len() ==> #[trigger] without_base(names)[i] != "freedesktop"@,
        forall|i: int|
            0 <= i < without_base(names).len() ==> names.contains(#[trigger] without_base(names)[i]),
    decreases names.len(),
{
    if names.len() > 0 {
        lemma_without_base(names.drop_last());
        let prev = without_base(names.drop_last());
        assert forall|i: int| 0 <= i < without_base(names).len() implies #[trigger] without_base(names)[i]
            != "freedesktop"@ && names.contains(without_base(names)[i]) by {
            if i < prev.len() {
                assert(without_base(names)[i] == prev[i]);
                let k = choose|k: int| 0 <= k < names.drop_last().len() && names.drop_last()[k] == prev[i];
                assert(names[k] == prev[i]);
            } else {
                assert(names[names.len() - 1] == names.last());
            }
        }
    }
}

/// No directory of a theme is the `[Sound Theme]` section.
pub proof fn lemma_directories_not_header(items: Seq<IniEntry>)
    ensures
        forall|i: int| 0 <= i < directory_names(items).len() ==> #[trigger] directory_names(items)[i] != "Sound Theme"@,
    decreases items.len(),
{
    if items.len() > 0 {
        lemma_directories_not_header(items.drop_last());
        let prev = directory_names(items.drop_last());
        assert forall|i: int| 0 <= i < directory_names(items).len() implies #[trigger] directory_names(items)[i]
            != "Sound Theme"@ by {
            if i < prev.len() {
                assert(directory_names(items)[i] == prev[i]);
            }
        }
    }
}

/// Whether `e` is a property with the value `v`.
pub open spec fn is_value_item(e: IniEntry, v: Seq<char>) -> bool {
    match e {
        IniEntry::Property(_, Some(w)) => w == v,
        _ => false,
    }
}

/// Whether some item of `items` is a property with the value `v`.
pub open spec fn value_listed(items: Seq<IniEntry>, v: Seq<char>) -> bool {
    exists|j: int| 0 <= j < items.len() && #[trigger] is_value_item(items[j], v)
}

proof fn lemma_section_props_values(items: Seq<IniEntry>, inside: bool)
    ensures
        forall|i: int|
            0 <= i < section_props(items, inside).len() ==> value_listed(items, (#[trigger] section_props(items, inside)[i]).1),
    decreases items.len(),
{
    if items.len() > 0 {
        let rest = items.drop_first();
        lemma_section_props_values(rest, true);
        lemma_section_props_values(rest, false);
        assert forall|v: Seq<char>| value_listed(rest, v) implies value_listed(items, v) by {
            let j = choose|j: int| 0 <= j < rest.len() && #[trigger] is_value_item(rest[j], v);
            assert(items[j + 1] == rest[j]);
        }
        assert forall|i: int| 0 <= i < section_props(items, inside).len() implies value_listed(
            items,
            (#[trigger] section_props(items, inside)[i]).1,
        ) by {
            let r = section_props(items, inside);
            match items[0] {
                IniEntry::Property(k, Some(v)) => {
                    if inside {
                        if i == 0 {
                            assert(is_value_item(items[0], r[0].1));
                        } else {
                            assert(r[i] == section_props(rest, true)[i - 1]);
                            assert(value_listed(rest, r[i].1));
                        }
                    } else {
                        assert(r[i] == section_props(rest, false)[i]);
                        assert(value_listed(rest, r[i].1));
                    }
                },
                IniEntry::Section(nm) => {
                    if nm == "Sound Theme"@ {
                        assert(r[i] == section_props(rest, true)[i]);
                    } else {
                        assert(r[i] == section_props(rest, false)[i]);
                    }
                    assert(value_listed(rest, r[i].1));
                },
                _ => {
                    assert(r[i] == section_props(rest, inside)[i]);
                    assert(value_listed(rest, r[i].1));
                },
            }
        }
    }
}

proof fn lemma_first_value_in(props: Seq<(Seq<char>, Seq<char>)>, key: Seq<char>)
    ensures
        first_value(props, key) matches Some(v) ==> exists|i: int| 0 <= i < props.len() && #[trigger] props[i].1 == v,
    decreases props.len(),
{
    if props.len() > 0 && props[0].0 != key {
        lemma_first_value_in(props.drop_first(), key);
        if let Some(v) = first_value(props, key) {
            let i = choose|i: int| 0 <= i < props.drop_first().len() && #[trigger] props.drop_first()[i].1 == v;
            assert(props[i + 1].1 == v);
        }
    }
}

/// Every inherited name stands in the document: where each string of the
/// items is a part of `doc`, so is each name that the items inherit.
pub proof fn lemma_inherited_parts(items: Seq<IniEntry>, doc: Seq<char>)
    requires
        forall|k: int| 0 <= k < items.len() ==> holds_parts_of(#[trigger] items[k], doc),
    ensures
        forall|i: int| 0 <= i < inherited(items).len() ==> is_part(#[trigger] inherited(items)[i], doc),
{
    let props = sound_theme_props(items);
    if let Some(v) = first_value(props, "Inherits"@) {
        lemma_first_value_in(props, "Inherits"@);
        let i = choose|i: int| 0 <= i < props.len() && #[trigger] props[i].1 == v;
        lemma_section_props_values(items, false);
        assert(value_listed(items, props[i].1));
        let j = choose|j: int| 0 <= j < items.len() && #[trigger] is_value_item(items[j], props[i].1);
        assert(holds_parts_of(items[j], doc));
        assert(is_part(v, doc));
        let pieces = split_seq(v, ',');
        crate::text::lemma_split_seq_parts(v, ',');
        lemma_without_base(pieces);
        assert forall|n: int| 0 <= n < inherited(items).len() implies is_part(#[trigger] inherited(items)[n], doc) by {
            let x = inherited(items)[n];
            assert(pieces.contains(x));
            let m = choose|m: int| 0 <= m < pieces.len() && pieces[m] == x;
            assert(is_part(pieces[m], v));
            crate::text::lemma_is_part_transitive(x, v, doc);
        }
    }
}

/// Whether `e` neither opens a section nor gives a key a value: a blank
/// line, a comment, a malformed header, a key without `=`, or the mark
/// before a section.
pub open spec fn is_filler(e: IniEntry) -> bool {
    match e {
        IniEntry::Section(_) => false,
        IniEntry::Property(_, Some(_)) => false,
        _ => true,
    }
}

proof fn lemma_section_props_filler(a: Seq<IniEntry>, x: IniEntry, b: Seq<IniEntry>, inside: bool)
    requires
        is_filler(x),
    ensures
        section_props(a + seq![x] + b, inside) == section_props(a + b, inside),
    decreases a.len(),
{
    if a.len() == 0 {
        assert(a + seq![x] + b =~= seq![x] + b);
        assert((seq![x] + b).drop_first() =~= b);
        assert(a + b =~= b);
    } else {
        let rest = a.drop_first();
        assert((a + seq![x] + b).drop_first() =~= rest + seq![x] + b);
        assert((a + b).drop_first() =~= rest + b);
        assert((a + seq![x] + b)[0] == a[0]);
        assert((a + b)[0] == a[0]);
        lemma_section_props_filler(rest, x, b, true);
        lemma_section_props_filler(rest, x, b, false);
    }
}

/// Lines that neither open a section nor give a key a value change nothing
/// of the `[Sound Theme]` section: a blank line or a comment anywhere leaves
/// its properties, and so the inherited themes, as they were. Only a header
/// of another name ends the section.
pub proof fn lemma_filler_lines_transparent(a: Seq<IniEntry>, x: IniEntry, b: Seq<IniEntry>)
    requires
        is_filler(x),
    ensures
        sound_theme_props(a + seq![x] + b) == sound_theme_props(a + b),
        inherited(a + seq![x] + b) == inherited(a + b),
{
    lemma_section_props_filler(a, x, b, false);
}

} // verus!
