//! Hash tables of the `hashbrown` crate, each behind a small struct whose
//! contents are named by an abstract map and whose methods state what
//! hashbrown's map does to them.

use vstd::prelude::*;

verus! {

/// A table from node id to a count, held in a `hashbrown::HashMap`.
#[verifier::external_body]
pub struct DegreeTable {
    table: hashbrown::HashMap<usize, usize>,
}

/// What a `DegreeTable` holds.
pub uninterp spec fn degree_entries(t: DegreeTable) -> Map<usize, usize>;

impl DegreeTable {
    /// The count recorded for `key`, if any.
    pub fn get(&self, key: usize) -> (r: Option<usize>)
        ensures
            r == (if degree_entries(*self).contains_key(key) {
                Some(degree_entries(*self)[key])
            } else {
                None::<usize>
            }),
    {
        self.lookup(key)
    }

    /// Relies on `hashbrown::HashMap::new`: the new map is empty.
    #[verifier::external_body]
    pub(crate) fn new() -> (r: DegreeTable)
        ensures
            forall|k: usize| !(#[trigger] degree_entries(r).contains_key(k)),
    {
        DegreeTable { table: hashbrown::HashMap::new() }
    }

    /// Relies on `hashbrown::HashMap::get`: the value stored under the key, if any.
    #[verifier::external_body]
    pub(crate) fn lookup(&self, key: usize) -> (r: Option<usize>)
        ensures
            r == (if degree_entries(*self).contains_key(key) {
                Some(degree_entries(*self)[key])
            } else {
                None::<usize>
            }),
    {
        self.table.get(&key).copied()
    }

    /// Relies on `hashbrown::HashMap::insert`: the key now maps to the value,
    /// every other key is unchanged.
    #[verifier::external_body]
    pub(crate) fn insert(&mut self, key: usize, value: usize)
        ensures
            degree_entries(*final(self)) == degree_entries(*old(self)).insert(key, value),
    {
        self.table.insert(key, value);
    }

    /// Relies on `hashbrown::HashMap::clone`: a table with the same entries.
    #[verifier::external_body]
    pub(crate) fn copy(&self) -> (r: DegreeTable)
        ensures
            degree_entries(r) == degree_entries(*self),
    {
        DegreeTable { table: self.table.clone() }
    }
}

/// A table from a path to a path, held in a `hashbrown::HashMap`.
#[verifier::external_body]
pub struct PathTable {
    table: hashbrown::HashMap<String, String>,
}

/// What a `PathTable` holds, by the characters of its keys and values.
pub uninterp spec fn path_entries(t: PathTable) -> Map<Seq<char>, Seq<char>>;

impl PathTable {
    /// Relies on `hashbrown::HashMap::new`: the new map is empty.
    #[verifier::external_body]
    pub(crate) fn new() -> (r: PathTable)
        ensures
            forall|k: Seq<char>| !(#[trigger] path_entries(r).contains_key(k)),
    {
        PathTable { table: hashbrown::HashMap::new() }
    }

    /// Relies on `hashbrown::HashMap::get`: the value stored under the key, if
    /// any. `String` keys compare by their characters.
    #[verifier::external_body]
    pub(crate) fn get(&self, key: &str) -> (r: Option<String>)
        ensures
            r is Some <==> path_entries(*self).contains_key(key@),
            r matches Some(v) ==> v@ == path_entries(*self)[key@],
    {
        self.table.get(key).cloned()
    }

    /// Relies on `hashbrown::HashMap::insert`: the key now maps to the value,
    /// every other key is unchanged.
    #[verifier::external_body]
    pub(crate) fn insert(&mut self, key: String, value: String)
        ensures
            path_entries(*final(self)) == path_entries(*old(self)).insert(key@, value@),
    {
        self.table.insert(key, value);
    }

    /// Relies on `hashbrown::HashMap::iter`: every entry exactly once, in an
    /// order that the table chooses.
    #[verifier::external_body]
    pub(crate) fn entries(&self) -> (r: Vec<(String, String)>)
        ensures
            forall|i: int|
                0 <= i < r@.len() ==> #[trigger] path_entries(*self).contains_key(r@[i].0@)
                    && path_entries(*self)[r@[i].0@] == r@[i].1@,
            forall|k: Seq<char>|
                #[trigger] path_entries(*self).contains_key(k) ==> exists|i: int|
                    0 <= i < r@.len() && r@[i].0@ == k,
            forall|i: int, j: int|
                0 <= i < j < r@.len() ==> r@[i].0@ != r@[j].0@,
    {
        self.table.iter().map(|(k, v)| (k.clone(), v.clone())).collect()
    }
}

/// The table that inserting the pairs in order gives: a later pair replaces
/// an earlier one with the same key.
pub open spec fn pairs_map(pairs: Seq<(String, String)>) -> Map<Seq<char>, Seq<char>>
    decreases pairs.len(),
{
    if pairs.len() == 0 {
        Map::empty()
    } else {
        pairs_map(pairs.drop_last()).insert(pairs.last().0@, pairs.last().1@)
    }
}

impl PathTable {
    /// A table of the given `(key, value)` pairs, inserted in order.
    pub fn from_pairs(pairs: Vec<(String, String)>) -> (r: PathTable)
        ensures
            path_entries(r) == pairs_map(pairs@),
    {
        let mut t = PathTable::new();
        assert(path_entries(t) =~= Map::<Seq<char>, Seq<char>>::empty());
        let mut i: usize = 0;
        while i < pairs.len()
            invariant
                i <= pairs@.len(),
                path_entries(t) == pairs_map(pairs@.subrange(0, i as int)),
            decreases pairs.len() - i,
        {
            let k = pairs[i].0.clone();
            let v = pairs[i].1.clone();
            assert(pairs@.subrange(0, i + 1).drop_last() == pairs@.subrange(0, i as int));
            t.insert(k, v);
            i = i + 1;
        }
        assert(pairs@.subrange(0, pairs@.len() as int) == pairs@);
        t
    }
}

/// The characters of each string of a list.
pub open spec fn views_of(v: Seq<String>) -> Seq<Seq<char>> {
    v.map_values(|s: String| s@)
}

/// A table from a lookup key to a list of candidate paths, held in a
/// `hashbrown::HashMap`.
#[verifier::external_body]
pub struct CandidateTable {
    table: hashbrown::HashMap<String, Vec<String>>,
}

/// What a `CandidateTable` holds, by the characters of its keys and paths.
pub uninterp spec fn candidate_entries(t: CandidateTable) -> Map<Seq<char>, Seq<Seq<char>>>;

impl CandidateTable {
    /// Relies on `hashbrown::HashMap::new`: the new map is empty.
    #[verifier::external_body]
    pub(crate) fn new() -> (r: CandidateTable)
        ensures
            forall|k: Seq<char>| !(#[trigger] candidate_entries(r).contains_key(k)),
    {
        CandidateTable { table: hashbrown::HashMap::new() }
    }

    /// Relies on `hashbrown::HashMap::get`: a copy of the list stored under
    /// the key, if any.
    #[verifier::external_body]
    pub(crate) fn get(&self, key: &str) -> (r: Option<Vec<String>>)
        ensures
            r is Some <==> candidate_entries(*self).contains_key(key@),
            r matches Some(v) ==> views_of(v@) == candidate_entries(*self)[key@],
    {
        self.table.get(key).cloned()
    }

    /// Relies on `hashbrown::HashMap::insert`: the key now maps to the list,
    /// every other key is unchanged.
    #[verifier::external_body]
    pub(crate) fn insert(&mut self, key: String, value: Vec<String>)
        ensures
            candidate_entries(*final(self)) == candidate_entries(*old(self)).insert(key@, views_of(value@)),
    {
        self.table.insert(key, value);
    }
}

} // verus!
