//! Tree scanning, one directory listing at a time. The caller reads each
//! directory and hands its listing over; this module decides which entries
//! it yields (directories, and files with an allowed extension, each
//! logical path once) and which subdirectories to descend into next.

use vstd::prelude::*;
use crate::model::{dedup_paths, entry_models, has_path, Entry, EntryModel};
use crate::ident::{lemma_identifier_of_child, path_identifier, SEGMENT_MARKER};
use crate::text::chars_of;

verus! {

/// What a directory listing says an item is.
#[derive(Clone, Copy, Debug, PartialEq, Eq, Structural)]
pub enum ItemKind {
    Directory,
    File,
    /// Neither a directory nor a regular file (a dangling link, a socket).
    Other,
}

/// One item of a directory listing.
#[derive(Clone, Debug)]
pub struct DirItem {
    pub name: String,
    pub kind: ItemKind,
}

/// What a [`DirItem`] holds.
pub struct DirItemModel {
    pub name: Seq<char>,
    pub kind: ItemKind,
}

impl View for DirItem {
    type V = DirItemModel;

    open spec fn view(&self) -> DirItemModel {
        DirItemModel { name: self.name@, kind: self.kind }
    }
}

/// `b` under `a`, with `/` between them; `b` alone where `a` is empty.
pub open spec fn join_path(a: Seq<char>, b: Seq<char>) -> Seq<char> {
    if a.len() == 0 {
        b
    } else {
        a + seq!['/'] + b
    }
}

/// `s` ends with `suffix`.
pub open spec fn ends_with(s: Seq<char>, suffix: Seq<char>) -> bool {
    suffix.len() <= s.len() && s.subrange(s.len() - suffix.len(), s.len() as int) == suffix
}

/// `name` ends with `.` and one of `exts` (a plain, case-sensitive suffix).
pub open spec fn allowed_name(name: Seq<char>, exts: Seq<String>) -> bool {
    exists|i: int| 0 <= i < exts.len() && ends_with(name, seq!['.'] + (#[trigger] exts[i])@)
}

/// The entry that a listed item yields, if any: a directory always, a file
/// only with an allowed extension.
pub open spec fn item_entry(
    item: DirItemModel,
    rel: Seq<char>,
    prefix: Seq<char>,
    exts: Seq<String>,
) -> Option<EntryModel> {
    let path = join_path(prefix, join_path(rel, item.name));
    match item.kind {
        ItemKind::Directory => Some(EntryModel { path, is_directory: true }),
        ItemKind::File => if allowed_name(item.name, exts) {
            Some(EntryModel { path, is_directory: false })
        } else {
            None
        },
        ItemKind::Other => None,
    }
}

/// The entries that a listing yields, in listing order.
pub open spec fn listed_entries(
    items: Seq<DirItemModel>,
    rel: Seq<char>,
    prefix: Seq<char>,
    exts: Seq<String>,
) -> Seq<EntryModel>
    decreases items.len(),
{
    if items.len() == 0 {
        Seq::empty()
    } else {
        let before = listed_entries(items.drop_last(), rel, prefix, exts);
        match item_entry(items.last(), rel, prefix, exts) {
            Some(e) => before.push(e),
            None => before,
        }
    }
}

/// The relative paths of the listed directories, in listing order.
pub open spec fn listed_subdirs(items: Seq<DirItemModel>, rel: Seq<char>) -> Seq<Seq<char>>
    decreases items.len(),
{
    if items.len() == 0 {
        Seq::empty()
    } else {
        let before = listed_subdirs(items.drop_last(), rel);
        if items.last().kind == ItemKind::Directory {
            before.push(join_path(rel, items.last().name))
        } else {
            before
        }
    }
}

/// The models of a listing.
pub open spec fn item_models(v: Seq<DirItem>) -> Seq<DirItemModel> {
    v.map_values(|d: DirItem| d@)
}

/// The views of a sequence of strings.
pub open spec fn string_views(v: Seq<String>) -> Seq<Seq<char>> {
    v.map_values(|s: String| s@)
}

fn join_path_str(a: &str, b: &str) -> (r: String)
    ensures
        r@ == join_path(a@, b@),
{
    if a.is_empty() {
        b.to_owned()
    } else {
        let mut s = a.to_owned();
        s.append("/");
        s.append(b);
        proof {
            reveal_strlit("/");
        }
        s
    }
}

fn ends_with_extension(name: &Vec<char>, ext: &Vec<char>) -> (r: bool)
    ensures
        r == ends_with(name@, seq!['.'] + ext@),
{
    let ghost suffix = seq!['.'] + ext@;
    if name.len() < ext.len() || name.len() - ext.len() < 1 {
        return false;
    }
    let start = name.len() - ext.len() - 1;
    let ghost tail = name@.subrange(start as int, name@.len() as int);
    if name[start] != '.' {
        assert(tail[0] != suffix[0]);
        return false;
    }
    let mut k: usize = 0;
    while k < ext.len()
        invariant
            start + 1 + ext@.len() == name@.len(),
            name@.len() <= usize::MAX,
            k <= ext@.len(),
            tail == name@.subrange(start as int, name@.len() as int),
            suffix == seq!['.'] + ext@,
            name@[start as int] == '.',
            forall|j: int| 0 <= j < k ==> name@[start + 1 + j] == ext@[j],
        decreases ext@.len() - k,
    {
        assert(start + 1 + k < name@.len());
        if name[start + 1 + k] != ext[k] {
            assert(tail[k + 1] != suffix[k + 1]);
            return false;
        }
        k = k + 1;
    }
    assert(tail =~= suffix);
    true
}

/// Whether `file_name` ends with `.` followed by one of `allowed_exts`: a
/// plain, case-sensitive suffix test, so `a.tar.gz` matches `gz`.
pub fn has_allowed_extension(file_name: &str, allowed_exts: &[String]) -> (r: bool)
    ensures
        r == allowed_name(file_name@, allowed_exts@),
{
    let name = chars_of(file_name);
    let mut i: usize = 0;
    while i < allowed_exts.len()
        invariant
            i <= allowed_exts@.len(),
            name@ == file_name@,
            forall|j: int|
                0 <= j < i ==> !ends_with(file_name@, seq!['.'] + (#[trigger] allowed_exts@[j])@),
        decreases allowed_exts@.len() - i,
    {
        let ext = chars_of(allowed_exts[i].as_str());
        if ends_with_extension(&name, &ext) {
            return true;
        }
        i = i + 1;
    }
    false
}

/// `seen` followed by the entries of `new` whose logical path is not
/// already there, the first of each path winning.
pub open spec fn with_new_paths(seen: Seq<EntryModel>, new: Seq<EntryModel>) -> Seq<EntryModel>
    decreases new.len(),
{
    if new.len() == 0 {
        seen
    } else {
        let before = with_new_paths(seen, new.drop_last());
        if has_path(before, new.last().path) {
            before
        } else {
            before.push(new.last())
        }
    }
}

/// Scanning in steps is deduplicating the whole: adding the entries of a
/// further listing to the deduplicated entries of earlier listings gives
/// the deduplicated entries of all of them, in the order they were listed.
pub proof fn lemma_scan_in_steps(earlier: Seq<EntryModel>, later: Seq<EntryModel>)
    ensures
        with_new_paths(dedup_paths(earlier), later) == dedup_paths(earlier + later),
    decreases later.len(),
{
    if later.len() == 0 {
        assert(earlier + later =~= earlier);
    } else {
        lemma_scan_in_steps(earlier, later.drop_last());
        assert((earlier + later).drop_last() =~= earlier + later.drop_last());
    }
}

proof fn lemma_with_new_path(seen: Seq<EntryModel>, new: Seq<EntryModel>, e: EntryModel)
    ensures
        with_new_paths(seen, new.push(e)) == with_new_paths(with_new_paths(seen, new), seq![e]),
{
    assert(new.push(e).drop_last() =~= new);
    assert(seq![e].drop_last() =~= Seq::<EntryModel>::empty());
    assert(with_new_paths(with_new_paths(seen, new), Seq::<EntryModel>::empty()) == with_new_paths(seen, new));
}

/// The entries found so far by a scan.
pub struct Scan {
    entries: Vec<Entry>,
}

impl View for Scan {
    type V = Seq<EntryModel>;

    closed spec fn view(&self) -> Seq<EntryModel> {
        entry_models(self.entries@)
    }
}

impl Scan {
    /// A scan that has found nothing yet.
    pub fn new() -> (r: Scan)
        ensures
            r@ == Seq::<EntryModel>::empty(),
    {
        let r = Scan { entries: Vec::new() };
        assert(r@ =~= Seq::<EntryModel>::empty());
        r
    }

    fn add(&mut self, e: Entry)
        ensures
            final(self)@ == with_new_paths(old(self)@, seq![e@]),
    {
        let ghost start = self@;
        proof {
            assert(seq![e@].drop_last() =~= Seq::<EntryModel>::empty());
            assert(with_new_paths(start, Seq::<EntryModel>::empty()) == start);
        }
        let mut k: usize = 0;
        while k < self.entries.len()
            invariant
                k <= self.entries@.len(),
                self@ == start,
                forall|q: int| 0 <= q < k ==> (#[trigger] start[q]).path != e@.path,
            decreases self.entries@.len() - k,
        {
            assert(start[k as int] == self.entries@[k as int]@);
            if self.entries[k].logical_path == e.logical_path {
                assert(has_path(start, e@.path));
                assert(seq![e@].drop_last() =~= Seq::<EntryModel>::empty());
                assert(with_new_paths(start, Seq::<EntryModel>::empty()) == start);
                return;
            }
            k = k + 1;
        }
        self.entries.push(e);
        assert(self@ =~= start.push(e@));
    }

    /// Takes in the listing of the directory at relative path `rel`, or
    /// `None` where that directory could not be read, which yields nothing.
    /// Each listed directory yields an entry, and each listed file whose
    /// name has an allowed extension; an entry whose logical path was seen
    /// before is left out. A logical path is `prefix/rel/name`, leaving out
    /// the empty parts. Returns the relative paths of the listed
    /// directories, to be scanned in turn.
    pub fn visit_listing(
        &mut self,
        listing: Option<Vec<DirItem>>,
        rel: &str,
        prefix: &str,
        allowed_exts: &[String],
    ) -> (subdirs: Vec<String>)
        ensures
            listing is None ==> final(self)@ == old(self)@ && subdirs@.len() == 0,
            listing matches Some(items) ==> final(self)@ == with_new_paths(
                old(self)@,
                listed_entries(item_models(items@), rel@, prefix@, allowed_exts@),
            ) && string_views(subdirs@) == listed_subdirs(item_models(items@), rel@),
    {
        let mut subdirs: Vec<String> = Vec::new();
        match listing {
            None => {
                subdirs
            },
            Some(items) => {
                let ghost start = self@;
                let ghost models = item_models(items@);
                let mut i: usize = 0;
                assert(models.subrange(0, 0) =~= Seq::<DirItemModel>::empty());
                assert(string_views(subdirs@) =~= Seq::<Seq<char>>::empty());
                while i < items.len()
                    invariant
                        i <= items@.len(),
                        models == item_models(items@),
                        self@ == with_new_paths(
                            start,
                            listed_entries(models.subrange(0, i as int), rel@, prefix@, allowed_exts@),
                        ),
                        string_views(subdirs@) == listed_subdirs(models.subrange(0, i as int), rel@),
                    decreases items@.len() - i,
                {
                    let ghost before = listed_entries(
                        models.subrange(0, i as int),
                        rel@,
                        prefix@,
                        allowed_exts@,
                    );
                    let ghost subs_before = subdirs@;
                    assert(models.subrange(0, i + 1).drop_last() =~= models.subrange(0, i as int));
                    assert(models[i as int] == items@[i as int]@);
                    let item = &items[i];
                    let rel_path = join_path_str(rel, item.name.as_str());
                    match item.kind {
                        ItemKind::Directory => {
                            let path = join_path_str(prefix, rel_path.as_str());
                            self.add(Entry { logical_path: path, is_directory: true });
                            subdirs.push(rel_path);
                            proof {
                                let e = item_entry(models[i as int], rel@, prefix@, allowed_exts@)->Some_0;
                                lemma_with_new_path(start, before, e);
                                assert(string_views(subdirs@) =~= string_views(subs_before).push(
                                    join_path(rel@, models[i as int].name),
                                ));
                            }
                        },
                        ItemKind::File => {
                            if has_allowed_extension(item.name.as_str(), allowed_exts) {
                                let path = join_path_str(prefix, rel_path.as_str());
                                self.add(Entry { logical_path: path, is_directory: false });
                                proof {
                                    let e = item_entry(models[i as int], rel@, prefix@, allowed_exts@)->Some_0;
                                    lemma_with_new_path(start, before, e);
                                }
                            }
                        },
                        ItemKind::Other => {},
                    }
                    i = i + 1;
                }
                assert(models.subrange(0, i as int) =~= models);
                subdirs
            },
        }
    }

    /// The entries found, in the order they were found.
    pub fn into_entries(self) -> (r: Vec<Entry>)
        ensures
            entry_models(r@) == self@,
    {
        self.entries
    }
}

/// A directory and a file listed inside it: the file's logical path is
/// the directory's, `/`, then the file name, and the file's identifier is
/// the directory's identifier, the segment marker, then the identifier of
/// the file name. So the two are distinct, and the directory's identifier
/// is a leading segment of the file's.
pub proof fn lemma_nested_entry(
    prefix: Seq<char>,
    rel: Seq<char>,
    dir_name: Seq<char>,
    file_name: Seq<char>,
)
    requires
        dir_name.len() > 0,
    ensures
        join_path(prefix, join_path(join_path(rel, dir_name), file_name)) == join_path(
            prefix,
            join_path(rel, dir_name),
        ) + seq!['/'] + file_name,
        path_identifier(join_path(prefix, join_path(join_path(rel, dir_name), file_name)))
            == path_identifier(join_path(prefix, join_path(rel, dir_name))) + seq![SEGMENT_MARKER]
            + path_identifier(file_name),
{
    let dir = join_path(rel, dir_name);
    assert(dir.len() > 0);
    assert(join_path(dir, file_name) == dir + seq!['/'] + file_name);
    if prefix.len() > 0 {
        assert(prefix + seq!['/'] + (dir + seq!['/'] + file_name) =~= (prefix + seq!['/'] + dir)
            + seq!['/'] + file_name);
    }
    lemma_identifier_of_child(
        join_path(prefix, dir),
        file_name,
        crate::ident::DotPolicy::Marker,
    );
}

/// With a non-empty prefix, every logical path that a listing yields is
/// the prefix, `/`, then the path relative to the scan root, and its
/// identifier opens with the prefix's identifier and the segment marker.
pub proof fn lemma_prefixed_entry(prefix: Seq<char>, rel: Seq<char>, name: Seq<char>)
    requires
        prefix.len() > 0,
    ensures
        join_path(prefix, join_path(rel, name)) == prefix + seq!['/'] + join_path(rel, name),
        path_identifier(join_path(prefix, join_path(rel, name))) == path_identifier(prefix)
            + seq![SEGMENT_MARKER] + path_identifier(join_path(rel, name)),
{
    lemma_identifier_of_child(prefix, join_path(rel, name), crate::ident::DotPolicy::Marker);
}

} // verus!
