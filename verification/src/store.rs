//! The engine's view of the backing store: two independent key-value
//! tables, `users` keyed by username and `groups` keyed by group id, each
//! holding one serialized document per key.
//!
//! The store gives row-level atomicity only: every operation below reads
//! or replaces one whole document under one key. No relational integrity
//! between the two tables is assumed; the coordinator maintains it.

use vstd::hash_map::StringHashMap;
use vstd::prelude::*;

verus! {

/// Spec-level model of the whole store: the serialized documents of each
/// table, by key.
#[verifier::ext_equal]
pub struct DbV {
    pub users: Map<Seq<char>, Seq<char>>,
    pub groups: Map<Seq<char>, Seq<char>>,
}

/// The documents of one table, by key.
pub open spec fn docs(m: Map<Seq<char>, String>) -> Map<Seq<char>, Seq<char>> {
    Map::new(|k: Seq<char>| m.dom().contains(k), |k: Seq<char>| m[k]@)
}

/// The two tables.
pub struct Database {
    pub users: StringHashMap<String>,
    pub groups: StringHashMap<String>,
}

impl View for Database {
    type V = DbV;

    open spec fn view(&self) -> DbV {
        DbV { users: docs(self.users@), groups: docs(self.groups@) }
    }
}

impl Database {
    /// An empty store: no users, no groups.
    pub fn new() -> (r: Self)
        ensures
            r@.users == Map::<Seq<char>, Seq<char>>::empty(),
            r@.groups == Map::<Seq<char>, Seq<char>>::empty(),
    {
        let r = Database { users: StringHashMap::new(), groups: StringHashMap::new() };
        proof {
            assert(r@.users =~= Map::<Seq<char>, Seq<char>>::empty());
            assert(r@.groups =~= Map::<Seq<char>, Seq<char>>::empty());
        }
        r
    }
}

/// Storing a document changes exactly that key's entry.
pub proof fn lemma_docs_insert(m: Map<Seq<char>, String>, k: Seq<char>, v: String)
    ensures
        docs(m.insert(k, v)) == docs(m).insert(k, v@),
{
    assert(docs(m.insert(k, v)) =~= docs(m).insert(k, v@));
}

/// Deleting a document changes exactly that key's entry.
pub proof fn lemma_docs_remove(m: Map<Seq<char>, String>, k: Seq<char>)
    ensures
        docs(m.remove(k)) == docs(m).remove(k),
{
    assert(docs(m.remove(k)) =~= docs(m).remove(k));
}

} // verus!
