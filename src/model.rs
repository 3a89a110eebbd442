//! The compiled set: scan entries deduplicated by logical path, each given
//! its identifier, checked for identifier collisions and ordered by
//! identifier.

use vstd::prelude::*;
use crate::ident::{identifier_chars, path_identifier_with, DotPolicy};
use crate::order::{chars_less, lemma_less_irreflexive, lemma_less_total, lemma_less_transitive, less_chars};
use crate::text::{chars_of, string_from_chars};

verus! {

/// A path found by a scan: a directory or a matching file.
#[derive(Clone, Debug)]
pub struct Entry {
    pub logical_path: String,
    pub is_directory: bool,
}

/// What an [`Entry`] holds.
pub struct EntryModel {
    pub path: Seq<char>,
    pub is_directory: bool,
}

impl View for Entry {
    type V = EntryModel;

    open spec fn view(&self) -> EntryModel {
        EntryModel { path: self.logical_path@, is_directory: self.is_directory }
    }
}

/// One row of a compiled set.
#[derive(Clone, Debug)]
pub struct CompiledEntry {
    pub identifier: String,
    pub logical_path: String,
    pub is_directory: bool,
}

/// What a [`CompiledEntry`] holds.
pub struct CompiledModel {
    pub identifier: Seq<char>,
    pub path: Seq<char>,
    pub is_directory: bool,
}

impl View for CompiledEntry {
    type V = CompiledModel;

    open spec fn view(&self) -> CompiledModel {
        CompiledModel {
            identifier: self.identifier@,
            path: self.logical_path@,
            is_directory: self.is_directory,
        }
    }
}

/// Two distinct logical paths that give the same identifier.
#[derive(Clone, Debug)]
pub struct Collision {
    pub identifier: String,
    pub first: String,
    pub second: String,
}

/// The models of a sequence of entries.
pub open spec fn entry_models(v: Seq<Entry>) -> Seq<EntryModel> {
    v.map_values(|e: Entry| e@)
}

/// The models of a sequence of compiled rows.
pub open spec fn compiled_models(v: Seq<CompiledEntry>) -> Seq<CompiledModel> {
    v.map_values(|c: CompiledEntry| c@)
}

/// Some entry of `s` has logical path `p`.
pub open spec fn has_path(s: Seq<EntryModel>, p: Seq<char>) -> bool {
    exists|i: int| 0 <= i < s.len() && (#[trigger] s[i]).path == p
}

/// `s` with every entry whose logical path was already seen left out: the
/// first entry of each path wins.
pub open spec fn dedup_paths(s: Seq<EntryModel>) -> Seq<EntryModel>
    decreases s.len(),
{
    if s.len() == 0 {
        Seq::empty()
    } else {
        let before = dedup_paths(s.drop_last());
        if has_path(before, s.last().path) {
            before
        } else {
            before.push(s.last())
        }
    }
}

/// The compiled row of an entry.
pub open spec fn compiled_model(e: EntryModel, dot: DotPolicy) -> CompiledModel {
    CompiledModel {
        identifier: path_identifier_with(e.path, dot),
        path: e.path,
        is_directory: e.is_directory,
    }
}

/// The first `n` entries of `d` have pairwise distinct identifiers.
pub open spec fn identifiers_distinct(d: Seq<EntryModel>, n: int, dot: DotPolicy) -> bool {
    forall|i: int, j: int|
        0 <= i < j < n ==> path_identifier_with(#[trigger] d[i].path, dot) != path_identifier_with(
            #[trigger] d[j].path,
            dot,
        )
}

/// Identifiers strictly ascend in ordinal order.
pub open spec fn sorted_by_identifier(out: Seq<CompiledModel>) -> bool {
    forall|a: int, b: int|
        0 <= a < b < out.len() ==> chars_less(#[trigger] out[a].identifier, #[trigger] out[b].identifier)
}

/// No two rows share a logical path.
pub open spec fn paths_distinct(out: Seq<CompiledModel>) -> bool {
    forall|a: int, b: int| 0 <= a < b < out.len() ==> #[trigger] out[a].path != #[trigger] out[b].path
}

/// Row `a` comes before row `b`: by identifier, then by logical path, both
/// in ordinal order.
pub open spec fn row_less(a: CompiledModel, b: CompiledModel) -> bool {
    chars_less(a.identifier, b.identifier) || (a.identifier == b.identifier && chars_less(
        a.path,
        b.path,
    ))
}

/// Rows strictly ascend by identifier, then by path.
pub open spec fn sorted_by_row(out: Seq<CompiledModel>) -> bool {
    forall|a: int, b: int| 0 <= a < b < out.len() ==> row_less(#[trigger] out[a], #[trigger] out[b])
}

/// Two distinct entries of `d` both have identifier `id`.
pub open spec fn collides(d: Seq<EntryModel>, id: Seq<char>, dot: DotPolicy) -> bool {
    exists|i: int, j: int|
        0 <= i < d.len() && 0 <= j < d.len() && i != j && path_identifier_with(
            (#[trigger] d[i]).path,
        dot) == id && path_identifier_with((#[trigger] d[j]).path, dot) == id
}

/// `id` is the least identifier (in ordinal order) that two entries of `d`
/// share, and `first` and `second` are the two least logical paths (in
/// ordinal order) that give it. This does not depend on the order of `d`.
pub open spec fn least_collision(
    d: Seq<EntryModel>,
    id: Seq<char>,
    first: Seq<char>,
    second: Seq<char>,
    dot: DotPolicy,
) -> bool {
    &&& has_path(d, first) && path_identifier_with(first, dot) == id
    &&& has_path(d, second) && path_identifier_with(second, dot) == id
    &&& chars_less(first, second)
    &&& forall|m: int|
        0 <= m < d.len() && path_identifier_with((#[trigger] d[m]).path, dot) == id ==> d[m].path == first
            || d[m].path == second || chars_less(second, d[m].path)
    &&& forall|other: Seq<char>| #[trigger] collides(d, other, dot) ==> other == id || chars_less(id, other)
}

/// What every compiled set satisfies.
pub open spec fn well_formed(out: Seq<CompiledModel>) -> bool {
    sorted_by_identifier(out) && paths_distinct(out)
}

/// `row` is the compiled row of some entry of `d`.
pub open spec fn row_of_some(d: Seq<EntryModel>, row: CompiledModel, dot: DotPolicy) -> bool {
    exists|i: int| 0 <= i < d.len() && row == compiled_model(#[trigger] d[i], dot)
}

/// Some row of `out` is the compiled row of `e`.
pub open spec fn has_row(out: Seq<CompiledModel>, e: EntryModel, dot: DotPolicy) -> bool {
    exists|k: int| 0 <= k < out.len() && #[trigger] out[k] == compiled_model(e, dot)
}

/// Every row of `out` is the compiled row of some entry of `d`.
pub open spec fn rows_from(d: Seq<EntryModel>, out: Seq<CompiledModel>, dot: DotPolicy) -> bool {
    forall|k: int| 0 <= k < out.len() ==> row_of_some(d, #[trigger] out[k], dot)
}

/// Every entry of `d` has its compiled row in `out`.
pub open spec fn rows_cover(d: Seq<EntryModel>, out: Seq<CompiledModel>, dot: DotPolicy) -> bool {
    forall|i: int| 0 <= i < d.len() ==> has_row(out, #[trigger] d[i], dot)
}

/// `out` holds exactly the compiled rows of the entries of `d`, one each,
/// in ascending identifier order.
#[verifier::opaque]
pub open spec fn compiled_from(d: Seq<EntryModel>, out: Seq<CompiledModel>, dot: DotPolicy) -> bool {
    &&& out.len() == d.len()
    &&& sorted_by_identifier(out)
    &&& rows_from(d, out, dot)
    &&& rows_cover(d, out, dot)
}

/// The logical path whose identifier is `id`, if a row has it.
pub open spec fn path_of(out: Seq<CompiledModel>, id: Seq<char>) -> Option<Seq<char>> {
    if exists|k: int| 0 <= k < out.len() && (#[trigger] out[k]).identifier == id {
        let k = choose|k: int| 0 <= k < out.len() && (#[trigger] out[k]).identifier == id;
        Some(out[k].path)
    } else {
        None
    }
}

/// The closed table of identifiers and logical paths that one scan gives.
pub struct CompiledSet {
    entries: Vec<CompiledEntry>,
}

impl View for CompiledSet {
    type V = Seq<CompiledModel>;

    closed spec fn view(&self) -> Seq<CompiledModel> {
        compiled_models(self.entries@)
    }
}

impl CompiledSet {
    #[verifier::type_invariant]
    closed spec fn inv(self) -> bool {
        well_formed(compiled_models(self.entries@))
    }

    /// The rows, in ascending identifier order. Every compiled set is well
    /// formed.
    pub fn entries(&self) -> (r: &Vec<CompiledEntry>)
        ensures
            compiled_models(r@) == self@,
            well_formed(self@),
    {
        proof {
            use_type_invariant(self);
        }
        &self.entries
    }

    /// The number of rows.
    pub fn len(&self) -> (r: usize)
        ensures
            r == self@.len(),
    {
        self.entries.len()
    }

    /// The logical path whose identifier is `identifier`.
    pub fn lookup(&self, identifier: &str) -> (r: Option<String>)
        ensures
            r matches Some(p) ==> path_of(self@, identifier@) == Some(p@),
            r is None ==> path_of(self@, identifier@) is None,
    {
        proof {
            use_type_invariant(self);
        }
        let wanted = identifier.to_owned();
        let mut k: usize = 0;
        while k < self.entries.len()
            invariant
                k <= self@.len(),
                self@.len() == self.entries@.len(),
                self@ == compiled_models(self.entries@),
                well_formed(self@),
                wanted@ == identifier@,
                forall|q: int| 0 <= q < k ==> (#[trigger] self@[q]).identifier != identifier@,
            decreases self@.len() - k,
        {
            if self.entries[k].identifier == wanted {
                let p = self.entries[k].logical_path.clone();
                proof {
                    let s = self@;
                    assert(s[k as int].identifier == identifier@);
                    assert(s[k as int] == self.entries@[k as int]@);
                    let c = choose|c: int| 0 <= c < s.len() && (#[trigger] s[c]).identifier == identifier@;
                    lemma_less_irreflexive(identifier@);
                    if c < k {
                        assert(chars_less(s[c].identifier, s[k as int].identifier));
                    } else if c > k {
                        assert(chars_less(s[k as int].identifier, s[c].identifier));
                    }
                }
                return Some(p);
            }
            k = k + 1;
        }
        None
    }
}

/// The entries that a compiled set is made of: `entries` deduplicated by
/// logical path, the first of each path winning.
pub open spec fn distinct_entries(entries: Seq<Entry>) -> Seq<EntryModel> {
    dedup_paths(entry_models(entries))
}

proof fn lemma_row_source(d: Seq<EntryModel>, out: Seq<CompiledModel>, q: int, dot: DotPolicy) -> (m: int)
    requires
        rows_from(d, out, dot),
        0 <= q < out.len(),
    ensures
        0 <= m < d.len(),
        out[q] == compiled_model(d[m], dot),
{
    assert(row_of_some(d, out[q], dot));
    let m = choose|m: int| 0 <= m < d.len() && out[q] == compiled_model(#[trigger] d[m], dot);
    m
}

proof fn lemma_entry_row(d: Seq<EntryModel>, out: Seq<CompiledModel>, m: int, dot: DotPolicy) -> (q: int)
    requires
        rows_cover(d, out, dot),
        0 <= m < d.len(),
    ensures
        0 <= q < out.len(),
        out[q] == compiled_model(d[m], dot),
{
    assert(has_row(out, d[m], dot));
    let q = choose|q: int| 0 <= q < out.len() && #[trigger] out[q] == compiled_model(d[m], dot);
    q
}

proof fn lemma_insert_row_sorted(v: Seq<CompiledModel>, p: int, m: CompiledModel)
    requires
        sorted_by_row(v),
        0 <= p <= v.len(),
        forall|q: int| 0 <= q < p ==> row_less(#[trigger] v[q], m),
        p < v.len() ==> row_less(m, v[p]),
    ensures
        sorted_by_row(v.insert(p, m)),
{
    let w = v.insert(p, m);
    assert forall|a: int, b: int| 0 <= a < b < w.len() implies row_less(#[trigger] w[a], #[trigger] w[b]) by {
        if b < p {
            assert(w[a] == v[a] && w[b] == v[b]);
        } else if b == p {
            assert(w[a] == v[a]);
        } else if a < p {
            assert(w[a] == v[a] && w[b] == v[b - 1]);
        } else if a == p {
            assert(w[b] == v[b - 1]);
            if b - 1 > p {
                assert(row_less(v[p], v[b - 1]));
                lemma_row_less_transitive(m, v[p], v[b - 1]);
            }
        } else {
            assert(w[a] == v[a - 1] && w[b] == v[b - 1]);
        }
    }
}

proof fn lemma_insert_rows_sourced(d: Seq<EntryModel>, v: Seq<CompiledModel>, em: EntryModel, p: int, dot: DotPolicy)
    requires
        rows_from(d, v, dot),
        0 <= p <= v.len(),
    ensures
        rows_from(d.push(em), v.insert(p, compiled_model(em, dot)), dot),
{
    assert forall|k: int| #![trigger v.insert(p, compiled_model(em, dot))[k]] 0 <= k < v.len() + 1 implies exists|i: int|
        #![trigger d.push(em)[i]]
        0 <= i < d.len() + 1 && v.insert(p, compiled_model(em, dot))[k] == compiled_model(d.push(em)[i], dot) by {
        if k == p {
            assert(v.insert(p, compiled_model(em, dot))[k] == compiled_model(d.push(em)[d.len() as int], dot));
        } else {
            let kk = if k < p { k } else { k - 1 };
            assert(v.insert(p, compiled_model(em, dot))[k] == v[kk]);
            let i = lemma_row_source(d, v, kk, dot);
            assert(d.push(em)[i] == d[i]);
            assert(0 <= i < d.len() + 1 && v.insert(p, compiled_model(em, dot))[k] == compiled_model(d.push(em)[i], dot));
        }
    }
}

proof fn lemma_insert_entries_rowed(d: Seq<EntryModel>, v: Seq<CompiledModel>, em: EntryModel, p: int, dot: DotPolicy)
    requires
        rows_cover(d, v, dot),
        0 <= p <= v.len(),
    ensures
        rows_cover(d.push(em), v.insert(p, compiled_model(em, dot)), dot),
{
    assert forall|i: int| #![trigger d.push(em)[i]] 0 <= i < d.len() + 1 implies exists|k: int|
        #![trigger v.insert(p, compiled_model(em, dot))[k]]
        0 <= k < v.len() + 1 && v.insert(p, compiled_model(em, dot))[k] == compiled_model(d.push(em)[i], dot) by {
        if i == d.len() {
            assert(v.insert(p, compiled_model(em, dot))[p] == compiled_model(d.push(em)[i], dot));
        } else {
            assert(d.push(em)[i] == d[i]);
            let kk = lemma_entry_row(d, v, i, dot);
            let k = if kk < p { kk } else { kk + 1 };
            assert(v.insert(p, compiled_model(em, dot))[k] == v[kk]);
        }
    }
}

proof fn lemma_insert_paths_distinct(v: Seq<CompiledModel>, m: CompiledModel, p: int)
    requires
        paths_distinct(v),
        0 <= p <= v.len(),
        forall|k: int| 0 <= k < v.len() ==> (#[trigger] v[k]).path != m.path,
    ensures
        paths_distinct(v.insert(p, m)),
{
    let w = v.insert(p, m);
    assert forall|a: int, b: int| 0 <= a < b < w.len() implies #[trigger] w[a].path
        != #[trigger] w[b].path by {
        if a == p {
            assert(w[b] == v[b - 1]);
        } else if b == p {
            assert(w[a] == v[a]);
        } else {
            let aa = if a < p { a } else { a - 1 };
            let bb = if b < p { b } else { b - 1 };
            assert(w[a] == v[aa] && w[b] == v[bb]);
        }
    }
}

proof fn lemma_has_path_rows(d: Seq<EntryModel>, v: Seq<CompiledModel>, path: Seq<char>, dot: DotPolicy)
    requires
        rows_from(d, v, dot),
        rows_cover(d, v, dot),
    ensures
        has_path(d, path) <==> exists|q: int| 0 <= q < v.len() && (#[trigger] v[q]).path == path,
{
    if has_path(d, path) {
        let m = choose|m: int| 0 <= m < d.len() && (#[trigger] d[m]).path == path;
        let q = lemma_entry_row(d, v, m, dot);
    }
    if exists|q: int| 0 <= q < v.len() && (#[trigger] v[q]).path == path {
        let q = choose|q: int| 0 <= q < v.len() && (#[trigger] v[q]).path == path;
        let m = lemma_row_source(d, v, q, dot);
    }
}

/// Whether some row has logical path `path`.
fn rows_have_path(out: &Vec<CompiledEntry>, path: &String) -> (r: bool)
    ensures
        r == exists|q: int|
            0 <= q < out@.len() && (#[trigger] compiled_models(out@)[q]).path == path@,
{
    let ghost v = compiled_models(out@);
    let mut k: usize = 0;
    while k < out.len()
        invariant
            k <= out@.len(),
            v == compiled_models(out@),
            forall|q: int| 0 <= q < k ==> (#[trigger] v[q]).path != path@,
        decreases out@.len() - k,
    {
        if out[k].logical_path == *path {
            assert(v[k as int] == out@[k as int]@);
            return true;
        }
        assert(v[k as int] == out@[k as int]@);
        k = k + 1;
    }
    false
}

proof fn lemma_row_less_transitive(a: CompiledModel, b: CompiledModel, c: CompiledModel)
    requires
        row_less(a, b),
        row_less(b, c),
    ensures
        row_less(a, c),
{
    if chars_less(a.identifier, b.identifier) && chars_less(b.identifier, c.identifier) {
        lemma_less_transitive(a.identifier, b.identifier, c.identifier);
    } else if chars_less(a.path, b.path) && chars_less(b.path, c.path) {
        lemma_less_transitive(a.path, b.path, c.path);
    }
}

proof fn lemma_row_less_total(a: CompiledModel, b: CompiledModel)
    requires
        a.path != b.path,
    ensures
        row_less(a, b) || row_less(b, a),
        !(row_less(a, b) && row_less(b, a)),
{
    lemma_less_total(a.identifier, b.identifier);
    lemma_less_total(a.path, b.path);
    lemma_less_irreflexive(a.identifier);
}

proof fn lemma_dedup_distinct(s: Seq<EntryModel>)
    ensures
        forall|i: int, j: int|
            0 <= i < j < dedup_paths(s).len() ==> (#[trigger] dedup_paths(s)[i]).path != (
            #[trigger] dedup_paths(s)[j]).path,
    decreases s.len(),
{
    if s.len() > 0 {
        lemma_dedup_distinct(s.drop_last());
        let before = dedup_paths(s.drop_last());
        if !has_path(before, s.last().path) {
            let d = before.push(s.last());
            assert forall|i: int, j: int| 0 <= i < j < d.len() implies (#[trigger] d[i]).path != (
            #[trigger] d[j]).path by {
                assert(d[i] == before[i]);
                if j < before.len() {
                    assert(d[j] == before[j]);
                }
            }
        }
    }
}

/// In rows sorted by identifier then path, two rows with one identifier
/// have every row between them share it; in particular the next one.
proof fn lemma_equal_ids_adjacent(out: Seq<CompiledModel>, a: int, b: int)
    requires
        sorted_by_row(out),
        0 <= a < b < out.len(),
        out[a].identifier == out[b].identifier,
    ensures
        out[a].identifier == out[a + 1].identifier,
{
    assert(row_less(out[a], out[a + 1]));
    lemma_less_irreflexive(out[a].identifier);
    if b > a + 1 && chars_less(out[a].identifier, out[a + 1].identifier) {
        assert(row_less(out[a + 1], out[b]));
        if chars_less(out[a + 1].identifier, out[b].identifier) {
            lemma_less_transitive(out[a].identifier, out[a + 1].identifier, out[b].identifier);
        }
    }
}

/// Rows of `out` that come from two distinct entries of `d`.
proof fn lemma_rows_of_entries(d: Seq<EntryModel>, out: Seq<CompiledModel>, i: int, j: int, dot: DotPolicy) -> (r: (int, int))
    requires
        rows_cover(d, out, dot),
        forall|x: int, y: int| 0 <= x < y < d.len() ==> (#[trigger] d[x]).path != (#[trigger] d[y]).path,
        0 <= i < d.len(),
        0 <= j < d.len(),
        i != j,
    ensures
        0 <= r.0 < out.len(),
        0 <= r.1 < out.len(),
        r.0 != r.1,
        out[r.0] == compiled_model(d[i], dot),
        out[r.1] == compiled_model(d[j], dot),
{
    let qi = lemma_entry_row(d, out, i, dot);
    let qj = lemma_entry_row(d, out, j, dot);
    if i < j {
        assert(d[i].path != d[j].path);
    } else {
        assert(d[j].path != d[i].path);
    }
    (qi, qj)
}

/// The position at which row `m` goes among the rows of `out`.
fn row_insertion_point(out: &Vec<CompiledEntry>, ids: &Vec<Vec<char>>, id: &Vec<char>, path: &Vec<char>) -> (p: usize)
    requires
        ids@.len() == out@.len(),
        forall|k: int| 0 <= k < ids@.len() ==> (#[trigger] ids@[k])@ == out@[k].identifier@,
    ensures
        p <= out@.len(),
        forall|k: int|
            0 <= k < p ==> row_less(
                #[trigger] compiled_models(out@)[k],
                (CompiledModel { identifier: id@, path: path@, is_directory: false }),
            ),
        p < out@.len() ==> !row_less(
            compiled_models(out@)[p as int],
            (CompiledModel { identifier: id@, path: path@, is_directory: false }),
        ),
{
    let ghost key = CompiledModel { identifier: id@, path: path@, is_directory: false };
    let ghost v = compiled_models(out@);
    let mut p: usize = 0;
    while p < ids.len()
        invariant
            p <= ids@.len(),
            ids@.len() == out@.len(),
            v == compiled_models(out@),
            key == (CompiledModel { identifier: id@, path: path@, is_directory: false }),
            forall|k: int| 0 <= k < ids@.len() ==> (#[trigger] ids@[k])@ == out@[k].identifier@,
            forall|k: int| 0 <= k < p ==> row_less(#[trigger] v[k], key),
        decreases ids@.len() - p,
    {
        assert(v[p as int] == out@[p as int]@);
        let here = chars_of(out[p].logical_path.as_str());
        assert(here@ == v[p as int].path);
        assert(ids@[p as int]@ == v[p as int].identifier);
        let id_less = less_chars(&ids[p], id);
        let id_same = crate::text::chars_equal(&ids[p], id);
        let path_less = less_chars(&here, path);
        let before = id_less || (id_same && path_less);
        assert(before == row_less(v[p as int], key));
        if !before {
            return p;
        }
        p = p + 1;
    }
    p
}

/// Builds the compiled set of `entries`: they are deduplicated by logical
/// path (the first of each path wins), each is given the identifier of its
/// path under the dot policy `dot`, and the rows are ordered by ascending
/// identifier. Fails when two distinct paths give the same identifier,
/// naming the least such identifier and its two least paths, whatever the
/// order of `entries`.
pub fn build_with(entries: &Vec<Entry>, dot: DotPolicy) -> (r: Result<CompiledSet, Collision>)
    ensures
        r is Ok <==> identifiers_distinct(
            distinct_entries(entries@),
            distinct_entries(entries@).len() as int,
            dot,
        ),
        r matches Ok(set) ==> compiled_from(distinct_entries(entries@), set@, dot),
        r matches Err(c) ==> least_collision(
            distinct_entries(entries@),
            c.identifier@,
            c.first@,
            c.second@,
            dot,
        ),
{
    let ghost models = entry_models(entries@);
    let mut out: Vec<CompiledEntry> = Vec::new();
    let mut ids: Vec<Vec<char>> = Vec::new();
    let mut i: usize = 0;
    assert(models.subrange(0, 0) =~= Seq::<EntryModel>::empty());
    while i < entries.len()
        invariant
            i <= entries@.len(),
            models == entry_models(entries@),
            ids@.len() == out@.len(),
            forall|k: int| 0 <= k < ids@.len() ==> (#[trigger] ids@[k])@ == out@[k].identifier@,
            compiled_models(out@).len() == dedup_paths(models.subrange(0, i as int)).len(),
            sorted_by_row(compiled_models(out@)),
            rows_from(dedup_paths(models.subrange(0, i as int)), compiled_models(out@), dot),
            rows_cover(dedup_paths(models.subrange(0, i as int)), compiled_models(out@), dot),
            paths_distinct(compiled_models(out@)),
        decreases entries@.len() - i,
    {
        let ghost d = dedup_paths(models.subrange(0, i as int));
        let ghost v = compiled_models(out@);
        let ghost em = models[i as int];
        assert(models.subrange(0, i + 1).drop_last() =~= models.subrange(0, i as int));
        assert(em == entries@[i as int]@);
        let e = &entries[i];
        let seen = rows_have_path(&out, &e.logical_path);
        proof {
            lemma_has_path_rows(d, v, em.path, dot);
        }
        if seen {
            assert(dedup_paths(models.subrange(0, i + 1)) == d);
        } else {
            assert(dedup_paths(models.subrange(0, i + 1)) == d.push(em));
            let cs = chars_of(e.logical_path.as_str());
            let id = identifier_chars(&cs, dot);
            let p = row_insertion_point(&out, &ids, &id, &cs);
            let row = CompiledEntry {
                identifier: string_from_chars(&id),
                logical_path: e.logical_path.clone(),
                is_directory: e.is_directory,
            };
            let ghost m = row@;
            proof {
                let key = CompiledModel { identifier: id@, path: cs@, is_directory: false };
                assert(m == compiled_model(em, dot));
                assert forall|k: int| 0 <= k < v.len() implies (#[trigger] v[k]).path != em.path by {}
                if p < v.len() {
                    lemma_row_less_total(m, v[p as int]);
                }
                assert forall|k: int| 0 <= k < p implies row_less(#[trigger] v[k], m) by {
                    assert(row_less(v[k], key));
                }
                lemma_insert_row_sorted(v, p as int, m);
                lemma_insert_rows_sourced(d, v, em, p as int, dot);
                lemma_insert_entries_rowed(d, v, em, p as int, dot);
                lemma_insert_paths_distinct(v, m, p as int);
            }
            let ghost out_before = out@;
            let ghost ids_before = ids@;
            out.insert(p, row);
            ids.insert(p, id);
            proof {
                assert(compiled_models(out@) =~= v.insert(p as int, m));
                assert forall|k: int| 0 <= k < ids@.len() implies (#[trigger] ids@[k])@
                    == out@[k].identifier@ by {
                    if k < p {
                        assert(ids@[k] == ids_before[k] && out@[k] == out_before[k]);
                    } else if k > p {
                        assert(ids@[k] == ids_before[k - 1] && out@[k] == out_before[k - 1]);
                    }
                }
            }
        }
        i = i + 1;
    }
    assert(models.subrange(0, i as int) =~= models);
    let ghost d = dedup_paths(models);
    let ghost v = compiled_models(out@);
    proof {
        lemma_dedup_distinct(models);
    }
    assert(d == distinct_entries(entries@));
    let mut k: usize = 0;
    while k < ids.len() && k + 1 < ids.len()
        invariant
            k <= ids@.len(),
            ids@.len() == out@.len(),
            v == compiled_models(out@),
            d == distinct_entries(entries@),
            v.len() == d.len(),
            sorted_by_row(v),
            rows_from(d, v, dot),
            rows_cover(d, v, dot),
            paths_distinct(v),
            forall|x: int, y: int| 0 <= x < y < d.len() ==> (#[trigger] d[x]).path != (#[trigger] d[y]).path,
            forall|q: int| 0 <= q < ids@.len() ==> (#[trigger] ids@[q])@ == out@[q].identifier@,
            forall|q: int| 0 <= q < k && q + 1 < v.len() ==> (#[trigger] v[q]).identifier != v[q + 1].identifier,
        decreases ids@.len() - k,
    {
        assert(v[k as int] == out@[k as int]@);
        assert(v[k + 1] == out@[k + 1]@);
        if crate::text::chars_equal(&ids[k], &ids[k + 1]) {
            let identifier = string_from_chars(&ids[k]);
            let first = out[k].logical_path.clone();
            let second = out[k + 1].logical_path.clone();
            proof {
                let a = k as int;
                lemma_less_irreflexive(v[a].identifier);
                assert(row_less(v[a], v[a + 1]));
                let ia = lemma_row_source(d, v, a, dot);
                let ib = lemma_row_source(d, v, a + 1, dot);
                assert(has_path(d, first@));
                assert(has_path(d, second@));
                assert forall|mm: int| 0 <= mm < d.len() && path_identifier_with((#[trigger] d[mm]).path, dot)
                    == identifier@ implies d[mm].path == first@ || d[mm].path == second@
                    || chars_less(second@, d[mm].path) by {
                    let q = lemma_entry_row(d, v, mm, dot);
                    if q < a {
                        lemma_equal_ids_adjacent(v, q, a);
                    } else if q > a + 1 {
                        assert(row_less(v[a + 1], v[q]));
                    }
                }
                assert forall|other: Seq<char>| #[trigger] collides(d, other, dot) implies other
                    == identifier@ || chars_less(identifier@, other) by {
                    let (x, y) = choose|x: int, y: int|
                        0 <= x < d.len() && 0 <= y < d.len() && x != y && path_identifier_with(
                            (#[trigger] d[x]).path,
                        dot) == other && path_identifier_with((#[trigger] d[y]).path, dot) == other;
                    let rr = lemma_rows_of_entries(d, v, x, y, dot);
                    let lo = if rr.0 < rr.1 { rr.0 } else { rr.1 };
                    let hi = if rr.0 < rr.1 { rr.1 } else { rr.0 };
                    lemma_equal_ids_adjacent(v, lo, hi);
                    if lo > a {
                        assert(row_less(v[a], v[lo]));
                    }
                }
                assert(d == distinct_entries(entries@));
                let rr = lemma_rows_of_entries(d, v, ia, ib, dot);
                assert(!identifiers_distinct(d, d.len() as int, dot)) by {
                    if ia < ib {
                        assert(path_identifier_with(d[ia].path, dot) == path_identifier_with(d[ib].path, dot));
                    } else {
                        assert(path_identifier_with(d[ib].path, dot) == path_identifier_with(d[ia].path, dot));
                    }
                }
            }
            return Err(Collision { identifier, first, second });
        }
        k = k + 1;
    }
    proof {
        assert forall|a: int, b: int| 0 <= a < b < v.len() implies chars_less(
            #[trigger] v[a].identifier,
            #[trigger] v[b].identifier,
        ) by {
            assert(row_less(v[a], v[b]));
            if v[a].identifier == v[b].identifier {
                lemma_equal_ids_adjacent(v, a, b);
            }
        }
        assert forall|x: int, y: int| 0 <= x < y < d.len() implies path_identifier_with(
            #[trigger] d[x].path,
        dot) != path_identifier_with(#[trigger] d[y].path, dot) by {
            let rr = lemma_rows_of_entries(d, v, x, y, dot);
            let lo = if rr.0 < rr.1 { rr.0 } else { rr.1 };
            let hi = if rr.0 < rr.1 { rr.1 } else { rr.0 };
            if path_identifier_with(d[x].path, dot) == path_identifier_with(d[y].path, dot) {
                lemma_equal_ids_adjacent(v, lo, hi);
            }
        }
        reveal(compiled_from);
    }
    Ok(CompiledSet { entries: out })
}

/// Builds the compiled set of `entries` with `.` shown as the dot marker,
/// as [`build_with`] does.
pub fn build(entries: &Vec<Entry>) -> (r: Result<CompiledSet, Collision>)
    ensures
        r is Ok <==> identifiers_distinct(
            distinct_entries(entries@),
            distinct_entries(entries@).len() as int,
            DotPolicy::Marker,
        ),
        r matches Ok(set) ==> compiled_from(distinct_entries(entries@), set@, DotPolicy::Marker),
        r matches Err(c) ==> least_collision(
            distinct_entries(entries@),
            c.identifier@,
            c.first@,
            c.second@,
            DotPolicy::Marker,
        ),
{
    build_with(entries, DotPolicy::Marker)
}
proof fn lemma_sorted_same_rows(a: Seq<CompiledModel>, b: Seq<CompiledModel>)
    requires
        sorted_by_identifier(a),
        sorted_by_identifier(b),
        a.len() == b.len(),
        forall|k: int| 0 <= k < a.len() ==> b.contains(#[trigger] a[k]),
        forall|k: int| 0 <= k < b.len() ==> a.contains(#[trigger] b[k]),
    ensures
        a == b,
    decreases a.len(),
{
    if a.len() == 0 {
        assert(a =~= b);
    } else {
        assert(b.contains(a[0]));
        assert(a.contains(b[0]));
        let kb = choose|k: int| 0 <= k < b.len() && b[k] == a[0];
        let ka = choose|k: int| 0 <= k < a.len() && a[k] == b[0];
        lemma_less_total(a[0].identifier, b[0].identifier);
        if kb > 0 && ka > 0 {
            assert(chars_less(b[0].identifier, b[kb].identifier));
            assert(chars_less(a[0].identifier, a[ka].identifier));
        }
        let ta = a.drop_first();
        let tb = b.drop_first();
        assert forall|k: int| 0 <= k < ta.len() implies tb.contains(#[trigger] ta[k]) by {
            assert(a[k + 1] == ta[k]);
            assert(b.contains(a[k + 1]));
            let j = choose|j: int| 0 <= j < b.len() && b[j] == a[k + 1];
            if j == 0 {
                assert(chars_less(a[0].identifier, a[k + 1].identifier));
                lemma_less_irreflexive(a[0].identifier);
            }
            assert(tb[j - 1] == ta[k]);
        }
        assert forall|k: int| 0 <= k < tb.len() implies ta.contains(#[trigger] tb[k]) by {
            assert(b[k + 1] == tb[k]);
            assert(a.contains(b[k + 1]));
            let j = choose|j: int| 0 <= j < a.len() && a[j] == b[k + 1];
            if j == 0 {
                assert(chars_less(b[0].identifier, b[k + 1].identifier));
                lemma_less_irreflexive(b[0].identifier);
            }
            assert(ta[j - 1] == tb[k]);
        }
        lemma_sorted_same_rows(ta, tb);
        assert(a =~= seq![a[0]] + ta);
        assert(b =~= seq![b[0]] + tb);
    }
}

/// Compiling is deterministic: the entries of a scan admit exactly one
/// sequence of rows, so two compilations of the same scan give the same
/// rows in the same order.
proof fn lemma_compiled_rows_from(d: Seq<EntryModel>, out: Seq<CompiledModel>, dot: DotPolicy)
    requires
        compiled_from(d, out, dot),
    ensures
        rows_from(d, out, dot),
{
    reveal(compiled_from);
}

proof fn lemma_compiled_rows_cover(d: Seq<EntryModel>, out: Seq<CompiledModel>, dot: DotPolicy)
    requires
        compiled_from(d, out, dot),
    ensures
        rows_cover(d, out, dot),
{
    reveal(compiled_from);
}

proof fn lemma_compiled_sorted(d: Seq<EntryModel>, out: Seq<CompiledModel>, dot: DotPolicy)
    requires
        compiled_from(d, out, dot),
    ensures
        out.len() == d.len(),
        sorted_by_identifier(out),
{
    reveal(compiled_from);
}

proof fn lemma_rows_within(d: Seq<EntryModel>, a: Seq<CompiledModel>, b: Seq<CompiledModel>, dot: DotPolicy)
    requires
        compiled_from(d, a, dot),
        compiled_from(d, b, dot),
    ensures
        forall|k: int| 0 <= k < a.len() ==> b.contains(#[trigger] a[k]),
{
    lemma_compiled_rows_from(d, a, dot);
    lemma_compiled_rows_cover(d, b, dot);
    assert forall|k: int| 0 <= k < a.len() implies b.contains(#[trigger] a[k]) by {
        let i = lemma_row_source(d, a, k, dot);
        let j = lemma_entry_row(d, b, i, dot);
        assert(b[j] == a[k]);
    }
}

/// Compiling is deterministic: the entries of a scan admit exactly one
/// sequence of rows, so two compilations of the same scan give the same
/// rows in the same order.
pub proof fn lemma_compiled_unique(d: Seq<EntryModel>, a: Seq<CompiledModel>, b: Seq<CompiledModel>, dot: DotPolicy)
    requires
        compiled_from(d, a, dot),
        compiled_from(d, b, dot),
    ensures
        a == b,
{
    lemma_rows_within(d, a, b, dot);
    lemma_rows_within(d, b, a, dot);
    lemma_compiled_sorted(d, a, dot);
    lemma_compiled_sorted(d, b, dot);
    lemma_sorted_same_rows(a, b);
}

/// Looking up the identifier of any row gives back that row's logical
/// path; no two rows share an identifier or a logical path.
pub proof fn lemma_round_trip(out: Seq<CompiledModel>, k: int)
    requires
        well_formed(out),
        0 <= k < out.len(),
    ensures
        path_of(out, out[k].identifier) == Some(out[k].path),
        forall|j: int|
            0 <= j < out.len() && j != k ==> (#[trigger] out[j]).identifier != out[k].identifier
                && out[j].path != out[k].path,
{
    lemma_less_irreflexive(out[k].identifier);
    assert forall|j: int| 0 <= j < out.len() && j != k implies (#[trigger] out[j]).identifier
        != out[k].identifier && out[j].path != out[k].path by {
        if j < k {
            assert(chars_less(out[j].identifier, out[k].identifier));
        } else {
            assert(chars_less(out[k].identifier, out[j].identifier));
        }
    }
    let id = out[k].identifier;
    assert(out[k].identifier == id);
    let c = choose|c: int| 0 <= c < out.len() && (#[trigger] out[c]).identifier == id;
    assert(c == k);
}

/// A failing compilation is deterministic too: the least colliding
/// identifier and its two least paths are one triple, so the same error is
/// reported whatever the order in which the entries came.
pub proof fn lemma_collision_unique(
    d: Seq<EntryModel>,
    id1: Seq<char>,
    first1: Seq<char>,
    second1: Seq<char>,
    id2: Seq<char>,
    first2: Seq<char>,
    second2: Seq<char>,
    dot: DotPolicy,
)
    requires
        least_collision(d, id1, first1, second1, dot),
        least_collision(d, id2, first2, second2, dot),
    ensures
        id1 == id2,
        first1 == first2,
        second1 == second2,
{
    lemma_less_irreflexive(first1);
    lemma_less_irreflexive(first2);
    let i1 = choose|i: int| 0 <= i < d.len() && (#[trigger] d[i]).path == first1;
    let j1 = choose|i: int| 0 <= i < d.len() && (#[trigger] d[i]).path == second1;
    let i2 = choose|i: int| 0 <= i < d.len() && (#[trigger] d[i]).path == first2;
    let j2 = choose|i: int| 0 <= i < d.len() && (#[trigger] d[i]).path == second2;
    assert(collides(d, id1, dot));
    assert(collides(d, id2, dot));
    lemma_less_total(id1, id2);
    assert(id1 == id2);
    lemma_less_total(first1, second1);
    lemma_less_total(first2, second2);
    lemma_less_total(first1, first2);
    lemma_less_total(second1, second2);
    lemma_less_total(first1, second2);
    lemma_less_total(first2, second1);
    if first2 != first1 && first2 != second1 {
        lemma_less_transitive(first1, second1, first2);
    }
    if first1 != first2 && first1 != second2 {
        lemma_less_transitive(first2, second2, first1);
    }
    if second2 != first1 && second2 != second1 {
        lemma_less_transitive(first1, second1, second2);
    }
    if second1 != first2 && second1 != second2 {
        lemma_less_transitive(first2, second2, second1);
    }
    if chars_less(second1, first2) {
        lemma_less_transitive(second1, first2, second2);
    }
    if chars_less(second2, first1) {
        lemma_less_transitive(second2, first1, second1);
    }
}

} // verus!
