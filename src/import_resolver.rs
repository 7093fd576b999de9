//! Resolution of import strings to file paths through a fixed cascade of
//! strategies: exact match, extension probe, directory index probe,
//! case-folded lookup by stem or basename, and unique suffix match.

use rayon::iter::{IntoParallelRefIterator, ParallelIterator};
use vstd::prelude::*;
use vstd::utf8::encode_utf8;
use crate::tables::{CandidateTable, PathTable, candidate_entries, path_entries, views_of};
use crate::text::{
    basename, basename_chars, chars_of, concat, ends_with, ends_with_chars, forward_slash_chars,
    forward_slashes, lemma_forward_slashes_no_backslash, lemma_forward_slashes_unchanged,
    lemma_remove_all_absent_char, lemma_remove_all_unchanged, lemma_skip_front_absent_char,
    lemma_skip_front_first, occurs_in, remove_all, remove_all_chars, skip_front,
    skip_leading_slashes, slash_pred, string_of, strip_extension, strip_extension_chars, trim,
    trim_chars,
};

verus! {

/// The parent-directory reference `../`.
pub open spec fn parent_ref() -> Seq<char> {
    seq!['.', '.', '/']
}

/// The current-directory reference `./`.
pub open spec fn current_ref() -> Seq<char> {
    seq!['.', '/']
}

/// The normal form of an import string: trimmed of white space, backslashes
/// turned into slashes, every `../` removed and then every `./`, and leading
/// slashes stripped.
pub open spec fn normalized(s: Seq<char>) -> Seq<char> {
    skip_front(
        remove_all(remove_all(forward_slashes(trim(s)), parent_ref()), current_ref()),
        slash_pred(),
    )
}

/// Normalising twice gives what normalising once gives, for every import
/// whose normal form has no surrounding white space and no `./` left in it.
/// (On the others normalising again trims or removes more, so the law fails
/// exactly there.)
pub proof fn lemma_normalize_idempotent(s: Seq<char>)
    requires
        trim(normalized(s)) == normalized(s),
        !occurs_in(current_ref(), normalized(s)),
    ensures
        normalized(normalized(s)) == normalized(s),
{
    let t = normalized(s);
    let a = forward_slashes(trim(s));
    let b = remove_all(a, parent_ref());
    let c = remove_all(b, current_ref());
    lemma_forward_slashes_no_backslash(trim(s));
    lemma_remove_all_absent_char(a, parent_ref(), '\\');
    lemma_remove_all_absent_char(b, current_ref(), '\\');
    lemma_skip_front_absent_char(c, slash_pred(), '\\');
    lemma_forward_slashes_unchanged(t);
    assert(!occurs_in(parent_ref(), t)) by {
        if occurs_in(parent_ref(), t) {
            let i = choose|i: int| 0 <= i && i + parent_ref().len() <= t.len()
                && #[trigger] t.subrange(i, i + parent_ref().len()) == parent_ref();
            assert(t.subrange(i + 1, i + 1 + current_ref().len()) == current_ref());
        }
    }
    lemma_remove_all_unchanged(t, parent_ref());
    lemma_remove_all_unchanged(t, current_ref());
    lemma_skip_front_first(c, slash_pred());
    if t.len() > 0 {
        assert(t[0] != '/');
    }
}

/// Resolving the normal form of an import gives what resolving the import
/// gives, for every import whose normal form has no surrounding white space
/// and no `./` left in it.
pub proof fn lemma_resolve_normalized(resolver: ImportResolver, s: Seq<char>)
    requires
        trim(normalized(s)) == normalized(s),
        !occurs_in(current_ref(), normalized(s)),
    ensures
        resolver.resolves(normalized(s)) == resolver.resolves(s),
{
    lemma_normalize_idempotent(s);
}

/// What `str::to_lowercase` makes of a string.
pub uninterp spec fn lower_of(s: Seq<char>) -> Seq<char>;

/// Relies on `str::to_lowercase`: the result depends on the characters alone.
#[verifier::external_body]
fn lowercase(s: &str) -> (r: String)
    ensures
        r@ == lower_of(s@),
{
    s.to_lowercase()
}

/// The lookup key of a file under its whole path: extension stripped, lower case.
pub open spec fn path_key(p: Seq<char>) -> Seq<char> {
    lower_of(strip_extension(p))
}

/// The lookup key of a file under its basename: extension stripped, lower case.
pub open spec fn basename_key(p: Seq<char>) -> Seq<char> {
    lower_of(strip_extension(basename(p)))
}

/// The stem of a JavaScript-style directory index, `/index`.
pub open spec fn index_stem() -> Seq<char> {
    seq!['/', 'i', 'n', 'd', 'e', 'x']
}

/// The stem of a Python package index, `/__init__`.
pub open spec fn init_stem() -> Seq<char> {
    seq!['/', '_', '_', 'i', 'n', 'i', 't', '_', '_']
}

/// The file of the first extension, in order, under which `base` followed by
/// that extension is a key of `files`.
pub open spec fn ext_probe(files: Map<Seq<char>, Seq<char>>, base: Seq<char>, exts: Seq<Seq<char>>) -> Option<Seq<char>>
    decreases exts.len(),
{
    if exts.len() == 0 {
        None
    } else if files.contains_key(base + exts[0]) {
        Some(files[base + exts[0]])
    } else {
        ext_probe(files, base, exts.drop_first())
    }
}

/// Length of a path in bytes, as UTF-8.
pub open spec fn byte_len(p: Seq<char>) -> nat {
    encode_utf8(p).len()
}

/// Relies on `str::len`: the length of the string in bytes, which always
/// fits in `usize`.
#[verifier::external_body]
fn length_in_bytes(s: &str) -> (r: usize)
    ensures
        r == byte_len(s@),
{
    s.len()
}

/// The first of the shortest paths of a non-empty list, by length in bytes.
pub open spec fn shortest(c: Seq<Seq<char>>) -> Seq<char>
    decreases c.len(),
{
    if c.len() <= 1 {
        c[0]
    } else {
        let best = shortest(c.drop_last());
        if byte_len(c.last()) < byte_len(best) { c.last() } else { best }
    }
}

/// Whether the key `k` ends with the query `q`, or with `/` and `q`.
pub open spec fn suffix_hit(k: Seq<char>, q: Seq<char>) -> bool {
    ends_with(k, q) || ends_with(k, seq!['/'] + q)
}

/// Whether exactly one key of `files` ends with the query.
pub open spec fn unique_suffix(files: Map<Seq<char>, Seq<char>>, q: Seq<char>) -> bool {
    exists|k: Seq<char>|
        #[trigger] files.contains_key(k) && suffix_hit(k, q) && forall|k2: Seq<char>|
            #[trigger] files.contains_key(k2) && suffix_hit(k2, q) ==> k2 == k
}

/// The file that the cascade gives for the normalised query `q`, if any.
pub open spec fn resolution(
    files: Map<Seq<char>, Seq<char>>,
    exts: Seq<Seq<char>>,
    lookup: Map<Seq<char>, Seq<Seq<char>>>,
    q: Seq<char>,
) -> Option<Seq<char>> {
    if files.contains_key(q) {
        Some(files[q])
    } else if ext_probe(files, q, exts) is Some {
        ext_probe(files, q, exts)
    } else if ext_probe(files, q + index_stem(), exts) is Some {
        ext_probe(files, q + index_stem(), exts)
    } else if ext_probe(files, q + init_stem(), exts) is Some {
        ext_probe(files, q + init_stem(), exts)
    } else if lookup.contains_key(lower_of(q)) && lookup[lower_of(q)].len() > 0 {
        Some(shortest(lookup[lower_of(q)]))
    } else if unique_suffix(files, q) {
        let k = choose|k: Seq<char>| files.contains_key(k) && suffix_hit(k, q);
        Some(files[k])
    } else {
        None
    }
}

/// The characters of an optional string.
pub open spec fn opt_view(o: Option<String>) -> Option<Seq<char>> {
    match o {
        Some(s) => Some(s@),
        None => None,
    }
}

fn normalize_chars(s: &Vec<char>) -> (r: Vec<char>)
    ensures
        r@ == normalized(s@),
{
    let trimmed = trim_chars(s);
    let slashed = forward_slash_chars(&trimmed);
    let parent: Vec<char> = vec!['.', '.', '/'];
    assert(parent@ == parent_ref());
    let no_parent = remove_all_chars(&slashed, &parent);
    let current: Vec<char> = vec!['.', '/'];
    assert(current@ == current_ref());
    let no_current = remove_all_chars(&no_parent, &current);
    skip_leading_slashes(&no_current)
}

/// Normalises an import string for matching: trims white space, turns
/// backslashes into slashes, removes every `../` and then every `./`, and
/// strips leading slashes.
pub fn normalize_import(import: &str) -> (r: String)
    ensures
        r@ == normalized(import@),
{
    string_of(&normalize_chars(&chars_of(import)))
}

/// `path` without its extension (the text from the last dot on, where that
/// dot stands after the last slash).
pub fn remove_extension(path: &str) -> (r: String)
    ensures
        r@ == strip_extension(path@),
{
    string_of(&strip_extension_chars(&chars_of(path)))
}

/// The last `/`-separated segment of `path`; every path has one.
pub fn get_basename(path: &str) -> (r: Option<String>)
    ensures
        r matches Some(b) && b@ == basename(path@),
{
    Some(string_of(&basename_chars(&chars_of(path))))
}

/// Whether the lookup table `m` lists the path `c` under the key `k`.
pub open spec fn lists(m: Map<Seq<char>, Seq<Seq<char>>>, k: Seq<char>, c: Seq<char>) -> bool {
    m.contains_key(k) && m[k].contains(c)
}

/// Whether one of the first `n` entries files the actual path `c` under the key `k`.
pub open spec fn filed_by(entries: Seq<(String, String)>, n: int, k: Seq<char>, c: Seq<char>) -> bool {
    exists|j: int| 0 <= j < n && (#[trigger] entries[j]).1@ == c
        && (k == path_key(entries[j].0@) || k == basename_key(entries[j].0@))
}

proof fn lemma_filed_by_step(entries: Seq<(String, String)>, n: int, k: Seq<char>, c: Seq<char>)
    requires
        0 <= n < entries.len(),
    ensures
        filed_by(entries, n + 1, k, c) <==> (filed_by(entries, n, k, c) || (entries[n].1@ == c
            && (k == path_key(entries[n].0@) || k == basename_key(entries[n].0@)))),
{
    if filed_by(entries, n + 1, k, c) && !(entries[n].1@ == c
        && (k == path_key(entries[n].0@) || k == basename_key(entries[n].0@))) {
        let j = choose|j: int| 0 <= j < n + 1 && (#[trigger] entries[j]).1@ == c
            && (k == path_key(entries[j].0@) || k == basename_key(entries[j].0@));
        assert(j < n);
    }
    if filed_by(entries, n, k, c) {
        let j = choose|j: int| 0 <= j < n && (#[trigger] entries[j]).1@ == c
            && (k == path_key(entries[j].0@) || k == basename_key(entries[j].0@));
        assert(0 <= j < n + 1);
    }
}

/// The lookup key of a file under its basename (`by_basename`) or its whole path.
pub open spec fn key_of(fk: Seq<char>, by_basename: bool) -> Seq<char> {
    if by_basename { basename_key(fk) } else { path_key(fk) }
}

/// How many times the lookup table `m` lists the path `c` under the key `k`.
pub open spec fn listed_count(m: Map<Seq<char>, Seq<Seq<char>>>, k: Seq<char>, c: Seq<char>) -> nat {
    if m.contains_key(k) { m[k].to_multiset().count(c) } else { 0 }
}

/// The keys of `files` whose actual path is `c` and whose lookup key, under
/// the basename (`by_basename`) or the whole path, is `k`.
pub open spec fn sources(files: Map<Seq<char>, Seq<char>>, k: Seq<char>, c: Seq<char>, by_basename: bool) -> Set<Seq<char>> {
    Set::new(|fk: Seq<char>| files.contains_key(fk) && files[fk] == c && key_of(fk, by_basename) == k)
}

/// The keys among the first `n` entries whose actual path is `c` and whose
/// lookup key, under the basename (`by_basename`) or the whole path, is `k`.
pub open spec fn sources_among(entries: Seq<(String, String)>, n: int, k: Seq<char>, c: Seq<char>, by_basename: bool) -> Set<Seq<char>> {
    Set::new(|fk: Seq<char>| exists|j: int| 0 <= j < n && (#[trigger] entries[j]).0@ == fk
        && entries[j].1@ == c && key_of(fk, by_basename) == k)
}

proof fn lemma_sources_among_step(entries: Seq<(String, String)>, n: int, k: Seq<char>, c: Seq<char>, b: bool)
    requires
        0 <= n < entries.len(),
        forall|x: int, y: int| 0 <= x < y < entries.len() ==> entries[x].0@ != entries[y].0@,
    ensures
        !sources_among(entries, n, k, c, b).contains(entries[n].0@),
        sources_among(entries, n + 1, k, c, b) == (if entries[n].1@ == c && key_of(entries[n].0@, b) == k {
            sources_among(entries, n, k, c, b).insert(entries[n].0@)
        } else {
            sources_among(entries, n, k, c, b)
        }),
{
    let e = entries[n];
    if sources_among(entries, n, k, c, b).contains(e.0@) {
        let j = choose|j: int| 0 <= j < n && (#[trigger] entries[j]).0@ == e.0@
            && entries[j].1@ == c && key_of(e.0@, b) == k;
        assert(entries[j].0@ != entries[n].0@);
    }
    let next = sources_among(entries, n + 1, k, c, b);
    let prev = sources_among(entries, n, k, c, b);
    assert forall|fk: Seq<char>| next.contains(fk) implies prev.contains(fk)
        || (fk == e.0@ && e.1@ == c && key_of(fk, b) == k) by {
        let j = choose|j: int| 0 <= j < n + 1 && (#[trigger] entries[j]).0@ == fk
            && entries[j].1@ == c && key_of(fk, b) == k;
        if j < n {
            assert(prev.contains(fk));
        }
    }
    assert forall|fk: Seq<char>| prev.contains(fk) implies next.contains(fk) by {
        let j = choose|j: int| 0 <= j < n && (#[trigger] entries[j]).0@ == fk
            && entries[j].1@ == c && key_of(fk, b) == k;
        assert(0 <= j < n + 1);
    }
    if e.1@ == c && key_of(e.0@, b) == k {
        assert(next.contains(e.0@)) by {
            assert(0 <= n < n + 1 && entries[n].0@ == e.0@);
        }
        assert(next =~= prev.insert(e.0@));
    } else {
        assert(next =~= prev);
    }
}

/// Appends `path` to the candidates filed under `key`.
fn add_candidate(t: &mut CandidateTable, key: String, path: String)
    requires
        forall|k: Seq<char>| #[trigger] candidate_entries(*old(t)).contains_key(k) ==> candidate_entries(*old(t))[k].len() > 0,
    ensures
        forall|k: Seq<char>, c: Seq<char>|
            #[trigger] lists(candidate_entries(*final(t)), k, c)
                <==> (lists(candidate_entries(*old(t)), k, c) || (k == key@ && c == path@)),
        forall|k: Seq<char>| #[trigger] candidate_entries(*final(t)).contains_key(k) ==> candidate_entries(*final(t))[k].len() > 0,
        forall|k: Seq<char>, c: Seq<char>|
            #[trigger] listed_count(candidate_entries(*final(t)), k, c)
                == listed_count(candidate_entries(*old(t)), k, c) + if k == key@ && c == path@ { 1nat } else { 0nat },
{
    broadcast use vstd::seq_lib::group_seq_properties, vstd::multiset::group_multiset_axioms;
    let ghost before = candidate_entries(*t);
    let mut list = match t.get(key.as_str()) {
        Some(v) => v,
        None => Vec::new(),
    };
    let ghost prev = views_of(list@);
    let ghost p = path@;
    list.push(path);
    assert(views_of(list@) == prev.push(p));
    t.insert(key, list);
    let ghost after = candidate_entries(*t);
    assert forall|k: Seq<char>, c: Seq<char>|
        #[trigger] lists(after, k, c)
            <==> (lists(before, k, c) || (k == key@ && c == p)) by {
        if k == key@ {
            if prev.push(p).contains(c) && c != p {
                let j = choose|j: int| 0 <= j < prev.push(p).len() && prev.push(p)[j] == c;
                assert(prev[j] == c);
            }
            if before.contains_key(k) && before[k].contains(c) {
                let j = choose|j: int| 0 <= j < prev.len() && prev[j] == c;
                assert(prev.push(p)[j] == c);
            }
            assert(prev.push(p)[prev.len() as int] == p);
        }
    }
    assert(before.contains_key(key@) ==> prev == before[key@]);
    assert(!before.contains_key(key@) ==> prev.len() == 0);
    assert forall|k: Seq<char>, c: Seq<char>|
        #[trigger] listed_count(after, k, c) == listed_count(before, k, c) + if k == key@ && c == p { 1nat } else { 0nat } by {
        if k == key@ {
            assert(after[k] == prev.push(p));
            assert(prev.push(p).to_multiset() =~= prev.to_multiset().insert(p));
            if !before.contains_key(k) {
                assert(!prev.contains(c));
                assert(prev.to_multiset().count(c) == 0);
            }
        }
    }
}

/// Import resolver over a file index (normalised path to actual path) and
/// an ordered list of extensions to try.
pub struct ImportResolver {
    file_index: PathTable,
    extensions: Vec<String>,
    normalized_index: CandidateTable,
}

impl ImportResolver {
    /// The file index: normalised path to actual path.
    pub closed spec fn files(&self) -> Map<Seq<char>, Seq<char>> {
        path_entries(self.file_index)
    }

    /// The extensions, in probe order.
    pub closed spec fn exts(&self) -> Seq<Seq<char>> {
        views_of(self.extensions@)
    }

    /// The derived lookup index: case-folded stem to candidate actual paths.
    pub closed spec fn lookup(&self) -> Map<Seq<char>, Seq<Seq<char>>> {
        candidate_entries(self.normalized_index)
    }

    /// The lookup index files each actual path of the file index under the
    /// lookup keys of its normalised path, and nothing else; no list is empty;
    /// and a path stands in the list of a key once for each key of the file
    /// index whose stem gives that lookup key, and once more for each whose
    /// basename does (so `utils.py` is listed twice under `utils`).
    pub open spec fn wf(&self) -> bool {
        &&& forall|k: Seq<char>, c: Seq<char>|
            #[trigger] lists(self.lookup(), k, c) <==> exists|fk: Seq<char>|
                #[trigger] self.files().contains_key(fk) && self.files()[fk] == c
                    && (k == path_key(fk) || k == basename_key(fk))
        &&& forall|k: Seq<char>| #[trigger] self.lookup().contains_key(k) ==> self.lookup()[k].len() > 0
        &&& forall|k: Seq<char>, c: Seq<char>, b: bool| #[trigger] sources(self.files(), k, c, b).finite()
        &&& forall|k: Seq<char>, c: Seq<char>|
            #[trigger] listed_count(self.lookup(), k, c)
                == sources(self.files(), k, c, false).len() + sources(self.files(), k, c, true).len()
    }

    /// What the cascade gives for an import string.
    pub open spec fn resolves(&self, import: Seq<char>) -> Option<Seq<char>> {
        resolution(self.files(), self.exts(), self.lookup(), normalized(import))
    }

    /// Builds a resolver over `file_index` (normalised path to actual path)
    /// and the extensions to try, in order. Each actual path is filed in the
    /// lookup index under two keys: its normalised path, and that path's
    /// basename, each without extension and in lower case.
    pub fn new(file_index: PathTable, extensions: Vec<String>) -> (r: ImportResolver)
        ensures
            r.wf(),
            r.files() == path_entries(file_index),
            r.exts() == views_of(extensions@),
    {
        let entries = file_index.entries();
        let ghost files = path_entries(file_index);
        let mut lookup = CandidateTable::new();
        assert forall|k: Seq<char>, c: Seq<char>, b: bool| #[trigger] sources_among(entries@, 0, k, c, b) == Set::<Seq<char>>::empty() by {
            assert(sources_among(entries@, 0, k, c, b) =~= Set::<Seq<char>>::empty());
        }
        let mut i: usize = 0;
        while i < entries.len()
            invariant
                i <= entries@.len(),
                files == path_entries(file_index),
                forall|k: Seq<char>, c: Seq<char>|
                    #[trigger] lists(candidate_entries(lookup), k, c)
                        <==> filed_by(entries@, i as int, k, c),
                forall|k: Seq<char>| #[trigger] candidate_entries(lookup).contains_key(k) ==> candidate_entries(lookup)[k].len() > 0,
                forall|x: int, y: int| 0 <= x < y < entries@.len() ==> entries@[x].0@ != entries@[y].0@,
                forall|k: Seq<char>, c: Seq<char>, b: bool| #[trigger] sources_among(entries@, i as int, k, c, b).finite(),
                forall|k: Seq<char>, c: Seq<char>|
                    #[trigger] listed_count(candidate_entries(lookup), k, c)
                        == sources_among(entries@, i as int, k, c, false).len() + sources_among(entries@, i as int, k, c, true).len(),
            decreases entries.len() - i,
        {
            let ghost before = candidate_entries(lookup);
            let norm = chars_of(entries[i].0.as_str());
            let stem_key = lowercase(string_of(&strip_extension_chars(&norm)).as_str());
            let base_key = lowercase(string_of(&strip_extension_chars(&basename_chars(&norm))).as_str());
            let ghost e = entries@[i as int];
            let ghost (k1, k2) = (stem_key@, base_key@);
            assert(k1 == path_key(e.0@) && k2 == basename_key(e.0@));
            add_candidate(&mut lookup, stem_key, entries[i].1.clone());
            let ghost mid = candidate_entries(lookup);
            add_candidate(&mut lookup, base_key, entries[i].1.clone());
            let ghost after = candidate_entries(lookup);
            assert forall|k: Seq<char>, c: Seq<char>|
                #[trigger] lists(after, k, c) <==> filed_by(entries@, i + 1, k, c) by {
                assert(lists(after, k, c) <==> (lists(mid, k, c) || (k == k2 && c == e.1@)));
                assert(lists(mid, k, c) <==> (lists(before, k, c) || (k == k1 && c == e.1@)));
                assert(lists(before, k, c) <==> filed_by(entries@, i as int, k, c));
                lemma_filed_by_step(entries@, i as int, k, c);
            }
            assert forall|k: Seq<char>, c: Seq<char>, b: bool| #[trigger] sources_among(entries@, i + 1, k, c, b).finite() by {
                lemma_sources_among_step(entries@, i as int, k, c, b);
            }
            assert forall|k: Seq<char>, c: Seq<char>|
                #[trigger] listed_count(after, k, c)
                    == sources_among(entries@, i + 1, k, c, false).len() + sources_among(entries@, i + 1, k, c, true).len() by {
                lemma_sources_among_step(entries@, i as int, k, c, false);
                lemma_sources_among_step(entries@, i as int, k, c, true);
                assert(listed_count(mid, k, c) == listed_count(before, k, c) + if k == k1 && c == e.1@ { 1nat } else { 0nat });
                assert(listed_count(after, k, c) == listed_count(mid, k, c) + if k == k2 && c == e.1@ { 1nat } else { 0nat });
                assert(listed_count(before, k, c)
                    == sources_among(entries@, i as int, k, c, false).len() + sources_among(entries@, i as int, k, c, true).len());
            }
            i = i + 1;
        }
        let r = ImportResolver { file_index, extensions, normalized_index: lookup };
        assert(r.files() == files);
        assert forall|k: Seq<char>, c: Seq<char>, b: bool| #[trigger] sources(files, k, c, b) == sources_among(entries@, entries@.len() as int, k, c, b) by {
            let all = sources_among(entries@, entries@.len() as int, k, c, b);
            assert forall|fk: Seq<char>| sources(files, k, c, b).contains(fk) implies all.contains(fk) by {
                let j = choose|j: int| 0 <= j < entries@.len() && entries@[j].0@ == fk;
                assert(entries@[j].1@ == c);
            }
            assert forall|fk: Seq<char>| all.contains(fk) implies sources(files, k, c, b).contains(fk) by {
                let j = choose|j: int| 0 <= j < entries@.len() && (#[trigger] entries@[j]).0@ == fk
                    && entries@[j].1@ == c && key_of(fk, b) == k;
                assert(files.contains_key(entries@[j].0@));
            }
            assert(sources(files, k, c, b) =~= all);
        }
        assert forall|k: Seq<char>, c: Seq<char>|
            #[trigger] lists(r.lookup(), k, c) <==> exists|fk: Seq<char>|
                #[trigger] r.files().contains_key(fk) && r.files()[fk] == c
                    && (k == path_key(fk) || k == basename_key(fk)) by {
            assert(lists(r.lookup(), k, c) <==> filed_by(entries@, entries@.len() as int, k, c));
            if filed_by(entries@, entries@.len() as int, k, c) {
                let j = choose|j: int| 0 <= j < entries@.len() && (#[trigger] entries@[j]).1@ == c
                    && (k == path_key(entries@[j].0@) || k == basename_key(entries@[j].0@));
                assert(r.files().contains_key(entries@[j].0@) && r.files()[entries@[j].0@] == c);
            }
            if exists|fk: Seq<char>| #[trigger] files.contains_key(fk) && files[fk] == c
                && (k == path_key(fk) || k == basename_key(fk)) {
                let fk = choose|fk: Seq<char>| #[trigger] files.contains_key(fk) && files[fk] == c
                    && (k == path_key(fk) || k == basename_key(fk));
                let j = choose|j: int| 0 <= j < entries@.len() && entries@[j].0@ == fk;
                assert(entries@[j].1@ == c);
                assert(filed_by(entries@, entries@.len() as int, k, c));
            }
        }
        r
    }

    /// The file of the first extension under which `base` plus that extension
    /// is in the file index.
    fn probe(&self, base: &Vec<char>) -> (r: Option<String>)
        ensures
            opt_view(r) == ext_probe(self.files(), base@, self.exts()),
    {
        let n = self.extensions.len();
        let ghost exts = self.exts();
        assert(exts.subrange(0, n as int) == exts);
        let mut i: usize = 0;
        while i < n
            invariant
                n == self.extensions@.len() == exts.len(),
                exts == self.exts(),
                i <= n,
                ext_probe(self.files(), base@, exts) == ext_probe(self.files(), base@, exts.subrange(i as int, n as int)),
            decreases n - i,
        {
            let ghost rest = exts.subrange(i as int, n as int);
            assert(rest[0] == self.extensions@[i as int]@);
            assert(rest.drop_first() == exts.subrange(i + 1, n as int));
            let key = string_of(&concat(base, &chars_of(self.extensions[i].as_str())));
            match self.file_index.get(key.as_str()) {
                Some(path) => {
                    return Some(path);
                },
                None => {},
            }
            i = i + 1;
        }
        None
    }

    /// The first of the shortest candidates of a non-empty list, by length in bytes.
    fn pick_shortest(candidates: &Vec<String>) -> (r: String)
        requires
            candidates@.len() > 0,
        ensures
            r@ == shortest(views_of(candidates@)),
    {
        let ghost all = views_of(candidates@);
        let mut best: usize = 0;
        let mut best_len: usize = length_in_bytes(candidates[0].as_str());
        assert(all.subrange(0, 1).len() == 1);
        let mut i: usize = 1;
        while i < candidates.len()
            invariant
                all == views_of(candidates@),
                1 <= i <= candidates@.len(),
                best < i,
                best_len == byte_len(all[best as int]),
                shortest(all.subrange(0, i as int)) == all[best as int],
            decreases candidates.len() - i,
        {
            let len = length_in_bytes(candidates[i].as_str());
            assert(all.subrange(0, i + 1).drop_last() == all.subrange(0, i as int));
            assert(all.subrange(0, i + 1).last() == all[i as int]);
            if len < best_len {
                best = i;
                best_len = len;
            }
            i = i + 1;
        }
        assert(all.subrange(0, candidates@.len() as int) == all);
        candidates[best].clone()
    }

    /// The value of the one key of the file index that ends with `q` (or
    /// with `/` and `q`), if exactly one does.
    fn unique_suffix_match(&self, q: &Vec<char>) -> (r: Option<String>)
        ensures
            unique_suffix(self.files(), q@) ==> (r matches Some(v) && exists|k: Seq<char>|
                self.files().contains_key(k) && suffix_hit(k, q@) && v@ == self.files()[k]),
            !unique_suffix(self.files(), q@) ==> r is None,
    {
        let entries = self.file_index.entries();
        let slash: Vec<char> = vec!['/'];
        let slash_q = concat(&slash, q);
        let mut count: usize = 0;
        let mut found: usize = 0;
        let mut i: usize = 0;
        while i < entries.len() && count < 2
            invariant
                i <= entries@.len(),
                slash_q@ == seq!['/'] + q@,
                count <= 2,
                count == 0 ==> forall|j: int| 0 <= j < i ==> !suffix_hit(#[trigger] entries@[j].0@, q@),
                count == 1 ==> found < i && suffix_hit(entries@[found as int].0@, q@)
                    && forall|j: int| 0 <= j < i && suffix_hit(#[trigger] entries@[j].0@, q@) ==> j == found,
                count == 2 ==> exists|j1: int, j2: int| 0 <= j1 < j2 < i
                    && suffix_hit(#[trigger] entries@[j1].0@, q@) && suffix_hit(#[trigger] entries@[j2].0@, q@),
            decreases entries.len() - i,
        {
            let key = chars_of(entries[i].0.as_str());
            if ends_with_chars(&key, q) || ends_with_chars(&key, &slash_q) {
                if count == 1 {
                    assert(suffix_hit(entries@[found as int].0@, q@) && suffix_hit(entries@[i as int].0@, q@));
                } else {
                    found = i;
                }
                count = count + 1;
            }
            i = i + 1;
        }
        let ghost files = self.files();
        if count == 1 {
            proof {
                let k = entries@[found as int].0@;
                assert forall|k2: Seq<char>| #[trigger] files.contains_key(k2) && suffix_hit(k2, q@) implies k2 == k by {
                    let j = choose|j: int| 0 <= j < entries@.len() && entries@[j].0@ == k2;
                    assert(suffix_hit(entries@[j].0@, q@));
                }
                assert(files.contains_key(k));
            }
            Some(entries[found].1.clone())
        } else {
            proof {
                if unique_suffix(files, q@) {
                    let k = choose|k: Seq<char>| #[trigger] files.contains_key(k) && suffix_hit(k, q@)
                        && forall|k2: Seq<char>| #[trigger] files.contains_key(k2) && suffix_hit(k2, q@) ==> k2 == k;
                    let j = choose|j: int| 0 <= j < entries@.len() && entries@[j].0@ == k;
                    if count == 0 {
                        assert(!suffix_hit(entries@[j].0@, q@));
                    } else {
                        let (j1, j2) = choose|j1: int, j2: int| 0 <= j1 < j2 < i
                            && suffix_hit(#[trigger] entries@[j1].0@, q@) && suffix_hit(#[trigger] entries@[j2].0@, q@);
                        assert(files.contains_key(entries@[j1].0@));
                        assert(files.contains_key(entries@[j2].0@));
                    }
                }
            }
            None
        }
    }

    /// Resolves an import string to a file path, trying in order: exact
    /// match, each extension, a directory index (`index` then `__init__`,
    /// each with every extension), the case-folded lookup by stem or basename
    /// (the first of the candidates shortest in bytes), and a suffix match that
    /// exactly one key of the file index meets.
    pub fn resolve(&self, import_string: &str) -> (r: Option<String>)
        ensures
            opt_view(r) == self.resolves(import_string@),
    {
        let q = normalize_chars(&chars_of(import_string));
        let ghost files = self.files();
        let ghost exts = self.exts();
        let ghost lookup = self.lookup();
        let query = string_of(&q);
        match self.file_index.get(query.as_str()) {
            Some(path) => { return Some(path); },
            None => {},
        }
        match self.probe(&q) {
            Some(path) => { return Some(path); },
            None => {},
        }
        let index: Vec<char> = vec!['/', 'i', 'n', 'd', 'e', 'x'];
        assert(index@ == index_stem());
        match self.probe(&concat(&q, &index)) {
            Some(path) => { return Some(path); },
            None => {},
        }
        let init: Vec<char> = vec!['/', '_', '_', 'i', 'n', 'i', 't', '_', '_'];
        assert(init@ == init_stem());
        match self.probe(&concat(&q, &init)) {
            Some(path) => { return Some(path); },
            None => {},
        }
        let lower = lowercase(query.as_str());
        match self.normalized_index.get(lower.as_str()) {
            Some(candidates) => {
                if candidates.len() > 0 {
                    return Some(Self::pick_shortest(&candidates));
                }
            },
            None => {},
        }
        let r = self.unique_suffix_match(&q);
        proof {
            if unique_suffix(files, q@) {
                let k = choose|k: Seq<char>| files.contains_key(k) && suffix_hit(k, q@);
                let u = choose|u: Seq<char>| #[trigger] files.contains_key(u) && suffix_hit(u, q@)
                    && forall|k2: Seq<char>| #[trigger] files.contains_key(k2) && suffix_hit(k2, q@) ==> k2 == u;
                assert(k == u);
            }
        }
        r
    }

    /// Number of the imports that resolve.
    pub open spec fn resolved_count(&self, imports: Seq<String>) -> nat
        decreases imports.len(),
    {
        if imports.len() == 0 {
            0
        } else {
            self.resolved_count(imports.drop_last())
                + if self.resolves(imports.last()@) is Some { 1nat } else { 0nat }
        }
    }

    /// One import with what it resolves to.
    fn resolve_entry(&self, import: &String) -> (r: (String, Option<String>))
        ensures
            r.0@ == import@,
            opt_view(r.1) == self.resolves(import@),
    {
        (import.clone(), self.resolve(import.as_str()))
    }

    /// Relies on rayon's `par_iter().map(..).collect()` into a `Vec`: one
    /// result per item, in the order of the items; each result is what
    /// `resolve_entry` returns for its item.
    #[verifier::external_body]
    fn resolve_in_parallel(&self, imports: &[String]) -> (r: Vec<(String, Option<String>)>)
        ensures
            r@.len() == imports@.len(),
            forall|i: int| 0 <= i < r@.len() ==> (#[trigger] r@[i]).0@ == imports@[i]@
                && opt_view(r@[i].1) == self.resolves(imports@[i]@),
    {
        imports.par_iter().map(|import| self.resolve_entry(import)).collect()
    }

    /// Resolves each import independently, in parallel; the result pairs
    /// each import with its resolution, in input order.
    pub fn resolve_batch(&self, imports: &[String]) -> (r: Vec<(String, Option<String>)>)
        ensures
            r@.len() == imports@.len(),
            forall|i: int| 0 <= i < r@.len() ==> (#[trigger] r@[i]).0@ == imports@[i]@
                && opt_view(r@[i].1) == self.resolves(imports@[i]@),
    {
        self.resolve_in_parallel(imports)
    }

    /// Counts of a batch: its size, how many imports resolve and how many do not.
    pub fn get_resolution_stats(&self, imports: &[String]) -> (r: ResolutionStats)
        ensures
            r.total == imports@.len(),
            r.resolved == self.resolved_count(imports@),
            r.unresolved == imports@.len() - self.resolved_count(imports@),
    {
        let results = self.resolve_batch(imports);
        let mut resolved: usize = 0;
        let mut i: usize = 0;
        while i < results.len()
            invariant
                i <= results@.len() == imports@.len(),
                forall|j: int| 0 <= j < results@.len() ==> (#[trigger] results@[j]).0@ == imports@[j]@
                    && opt_view(results@[j].1) == self.resolves(imports@[j]@),
                resolved == self.resolved_count(imports@.subrange(0, i as int)),
                resolved <= i,
            decreases results.len() - i,
        {
            let ghost pre = imports@.subrange(0, i as int);
            assert(imports@.subrange(0, i + 1).drop_last() == pre);
            assert(imports@.subrange(0, i + 1).last() == imports@[i as int]);
            assert(opt_view(results@[i as int].1) == self.resolves(imports@[i as int]@));
            if results[i].1.is_some() {
                resolved = resolved + 1;
            }
            i = i + 1;
        }
        assert(imports@.subrange(0, imports@.len() as int) == imports@);
        ResolutionStats { total: imports.len(), resolved, unresolved: imports.len() - resolved }
    }
}

/// Counts of a batch resolution. The resolution rate is `resolved / total`,
/// zero for an empty batch.
pub struct ResolutionStats {
    /// Number of imports in the batch.
    pub total: usize,
    /// Number of imports that resolved.
    pub resolved: usize,
    /// Number of imports that did not resolve.
    pub unresolved: usize,
}

/// Builds a resolver over `file_index` and `extensions` and resolves each
/// import, in input order. Which of two equally short lookup candidates wins
/// depends on the order in which the file index is walked, so the result is
/// stated through a well-formed resolver over the same files and extensions.
pub fn resolve_imports_batch(imports: &[String], file_index: PathTable, extensions: Vec<String>) -> (r: Vec<(String, Option<String>)>)
    ensures
        r@.len() == imports@.len(),
        exists|res: ImportResolver|
            res.wf() && res.files() == path_entries(file_index) && res.exts() == views_of(extensions@)
                && forall|i: int| 0 <= i < r@.len() ==> (#[trigger] r@[i]).0@ == imports@[i]@
                    && opt_view(r@[i].1) == res.resolves(imports@[i]@),
{
    let ghost files = path_entries(file_index);
    let resolver = ImportResolver::new(file_index, extensions);
    let r = resolver.resolve_batch(imports);
    assert(resolver.wf() && resolver.files() == files);
    r
}

} // verus!
