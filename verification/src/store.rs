//! The key-value storage abstraction: a typed store organised into three
//! independent named record families — namespace records, table records,
//! and the namespace-to-tables index.  Each family behaves as a map from
//! byte keys to byte values; an unknown family name is a `NotFound`
//! error, never a panic.  Key and value encoding is the callers'
//! business, so that identical logical identifiers always reach the same
//! physical key.

use vstd::prelude::*;

use crate::codec::bytes_eq;
use crate::error::CatalogError;

verus! {

/// The map denoted by a sequence of key/value entries: a later entry for
/// the same key wins.
pub open spec fn kv_entries_map(s: Seq<(Seq<u8>, Seq<u8>)>) -> Map<Seq<u8>, Seq<u8>>
    decreases s.len(),
{
    if s.len() == 0 {
        Map::empty()
    } else {
        kv_entries_map(s.drop_last()).insert(s.last().0, s.last().1)
    }
}

pub open spec fn kv_keys_distinct(s: Seq<(Seq<u8>, Seq<u8>)>) -> bool {
    forall|i: int, j: int| 0 <= i < j < s.len() ==> (#[trigger] s[i]).0 != (#[trigger] s[j]).0
}

pub proof fn lemma_kv_entries_map_contains(s: Seq<(Seq<u8>, Seq<u8>)>, k: Seq<u8>)
    ensures
        kv_entries_map(s).contains_key(k) <==> exists|i: int|
            0 <= i < s.len() && (#[trigger] s[i]).0 == k,
    decreases s.len(),
{
    if s.len() > 0 {
        lemma_kv_entries_map_contains(s.drop_last(), k);
        if kv_entries_map(s).contains_key(k) {
            if s.last().0 == k {
                assert(s[s.len() - 1].0 == k);
            } else {
                let i = choose|i: int|
                    0 <= i < s.drop_last().len() && (#[trigger] s.drop_last()[i]).0 == k;
                assert(s[i].0 == k);
            }
        }
        if exists|i: int| 0 <= i < s.len() && (#[trigger] s[i]).0 == k {
            let i = choose|i: int| 0 <= i < s.len() && (#[trigger] s[i]).0 == k;
            if i < s.len() - 1 {
                assert(s.drop_last()[i].0 == k);
            }
        }
    }
}

pub proof fn lemma_kv_entries_map_index(s: Seq<(Seq<u8>, Seq<u8>)>, i: int)
    requires
        kv_keys_distinct(s),
        0 <= i < s.len(),
    ensures
        kv_entries_map(s).contains_key(s[i].0),
        kv_entries_map(s)[s[i].0] == s[i].1,
    decreases s.len(),
{
    if i == s.len() - 1 {
        assert(s.last() == s[i]);
    } else {
        assert(kv_keys_distinct(s.drop_last()));
        lemma_kv_entries_map_index(s.drop_last(), i);
        assert(s.drop_last()[i] == s[i]);
        assert(s.last().0 != s[i].0);
    }
}

/// Removing the entry at index `i` removes exactly its key from the map.
pub proof fn lemma_kv_entries_map_remove(s: Seq<(Seq<u8>, Seq<u8>)>, i: int)
    requires
        kv_keys_distinct(s),
        0 <= i < s.len(),
    ensures
        kv_entries_map(s.remove(i)) =~= kv_entries_map(s).remove(s[i].0),
    decreases s.len(),
{
    let k = s[i].0;
    if i == s.len() - 1 {
        assert(s.remove(i) =~= s.drop_last());
        lemma_kv_entries_map_contains(s.drop_last(), k);
        assert forall|j: int| 0 <= j < s.drop_last().len() implies (#[trigger] s.drop_last()[j]).0
            != k by {
            assert(s[j] == s.drop_last()[j]);
        }
        assert(!kv_entries_map(s.drop_last()).contains_key(k));
        assert(kv_entries_map(s).remove(k) =~= kv_entries_map(s.drop_last()));
    } else {
        assert(kv_keys_distinct(s.drop_last()));
        lemma_kv_entries_map_remove(s.drop_last(), i);
        assert(s.remove(i).drop_last() =~= s.drop_last().remove(i));
        assert(s.remove(i).last() == s.last());
        assert(s.last().0 != k);
        assert(kv_entries_map(s.remove(i)) =~= kv_entries_map(s.drop_last().remove(i)).insert(
            s.last().0,
            s.last().1,
        ));
    }
}

/// One record family: an ordered association of byte keys to byte
/// values, with unique keys.
pub struct Family {
    entries: Vec<(Vec<u8>, Vec<u8>)>,
}

impl View for Family {
    type V = Map<Seq<u8>, Seq<u8>>;

    open spec fn view(&self) -> Map<Seq<u8>, Seq<u8>> {
        kv_entries_map(self.entries_view())
    }
}

impl Family {
    /// The entries in insertion order.
    pub closed spec fn entries_view(&self) -> Seq<(Seq<u8>, Seq<u8>)> {
        Seq::new(self.entries@.len(), |i: int| (self.entries@[i].0@, self.entries@[i].1@))
    }

    /// The keys in insertion order.
    pub open spec fn keys_view(&self) -> Seq<Seq<u8>> {
        Seq::new(self.entries_view().len(), |i: int| self.entries_view()[i].0)
    }

    /// Key uniqueness, established empty and kept by every operation.
    pub open spec fn wf(&self) -> bool {
        kv_keys_distinct(self.entries_view())
    }

    pub fn new() -> (r: Family)
        ensures
            r.wf(),
            r@ == Map::<Seq<u8>, Seq<u8>>::empty(),
    {
        let r = Family { entries: Vec::new() };
        proof {
            assert(r.entries_view() =~= Seq::<(Seq<u8>, Seq<u8>)>::empty());
        }
        r
    }

    fn find_idx(&self, k: &Vec<u8>) -> (r: Option<usize>)
        ensures
            match r {
                Some(i) => i < self.entries_view().len() && self.entries_view()[i as int].0 == k@,
                None => forall|i: int|
                    0 <= i < self.entries_view().len() ==> (#[trigger] self.entries_view()[i]).0
                        != k@,
            },
    {
        let mut i: usize = 0;
        while i < self.entries.len()
            invariant
                i <= self.entries.len(),
                forall|j: int| 0 <= j < i ==> (#[trigger] self.entries_view()[j]).0 != k@,
            decreases self.entries.len() - i,
        {
            if bytes_eq(&self.entries[i].0, k) {
                return Some(i);
            }
            i = i + 1;
        }
        None
    }

    /// The stored value for `k`, if any.
    pub fn get(&self, k: &Vec<u8>) -> (r: Option<Vec<u8>>)
        requires
            self.wf(),
        ensures
            match r {
                Some(v) => self@.contains_key(k@) && v@ == self@[k@],
                None => !self@.contains_key(k@),
            },
    {
        let idx = self.find_idx(k);
        proof {
            lemma_kv_entries_map_contains(self.entries_view(), k@);
        }
        match idx {
            Some(i) => {
                proof {
                    lemma_kv_entries_map_index(self.entries_view(), i as int);
                }
                Some(self.entries[i].1.clone())
            },
            None => None,
        }
    }

    /// Sets `k` to `v`, overwriting any existing entry.
    pub fn put(&mut self, k: &Vec<u8>, v: &Vec<u8>)
        requires
            old(self).wf(),
        ensures
            final(self).wf(),
            final(self)@ == old(self)@.insert(k@, v@),
    {
        let ghost pre = self.entries_view();
        let idx = self.find_idx(k);
        proof {
            lemma_kv_entries_map_contains(pre, k@);
        }
        match idx {
            Some(i) => {
                proof {
                    lemma_kv_entries_map_remove(pre, i as int);
                }
                let _ = self.entries.remove(i);
                let ghost mid = self.entries_view();
                proof {
                    assert(mid =~= pre.remove(i as int));
                    assert forall|a: int, b: int| 0 <= a < b < mid.len() implies (
                    #[trigger] mid[a]).0 != (#[trigger] mid[b]).0 by {}
                }
                self.entries.push((k.clone(), v.clone()));
                proof {
                    assert(self.entries_view() =~= mid.push((k@, v@)));
                    assert(self.entries_view().drop_last() =~= mid);
                    assert(self@ =~= old(self)@.insert(k@, v@));
                    assert forall|a: int, b: int|
                        0 <= a < b < self.entries_view().len() implies (
                    #[trigger] self.entries_view()[a]).0 != (
                    #[trigger] self.entries_view()[b]).0 by {
                        if b == self.entries_view().len() - 1 {
                            lemma_kv_entries_map_contains(mid, mid[a].0);
                            assert(kv_entries_map(mid).contains_key(mid[a].0));
                            assert(!kv_entries_map(mid).contains_key(k@));
                        }
                    }
                }
            },
            None => {
                self.entries.push((k.clone(), v.clone()));
                proof {
                    assert(self.entries_view() =~= pre.push((k@, v@)));
                    assert(self.entries_view().drop_last() =~= pre);
                    assert(self@ =~= old(self)@.insert(k@, v@));
                    assert forall|a: int, b: int|
                        0 <= a < b < self.entries_view().len() implies (
                    #[trigger] self.entries_view()[a]).0 != (
                    #[trigger] self.entries_view()[b]).0 by {
                        if b == self.entries_view().len() - 1 {
                            assert(pre[a].0 != k@);
                        }
                    }
                }
            },
        }
    }

    /// Removes the entry for `k`; removing an absent key is a no-op.
    pub fn del(&mut self, k: &Vec<u8>)
        requires
            old(self).wf(),
        ensures
            final(self).wf(),
            final(self)@ == old(self)@.remove(k@),
    {
        let ghost pre = self.entries_view();
        let idx = self.find_idx(k);
        proof {
            lemma_kv_entries_map_contains(pre, k@);
        }
        match idx {
            Some(i) => {
                proof {
                    lemma_kv_entries_map_remove(pre, i as int);
                }
                let _ = self.entries.remove(i);
                proof {
                    assert(self.entries_view() =~= pre.remove(i as int));
                    assert forall|a: int, b: int|
                        0 <= a < b < self.entries_view().len() implies (
                    #[trigger] self.entries_view()[a]).0 != (
                    #[trigger] self.entries_view()[b]).0 by {}
                }
            },
            None => {
                proof {
                    assert(!old(self)@.contains_key(k@));
                    assert(self@ =~= old(self)@.remove(k@));
                }
            },
        }
    }

    /// All keys, in the family's stable insertion order.
    pub fn keys(&self) -> (r: Vec<Vec<u8>>)
        ensures
            r.deep_view() == self.keys_view(),
    {
        broadcast use crate::codec::lemma_vec_u8_deep_view;

        let mut r: Vec<Vec<u8>> = Vec::new();
        let mut i: usize = 0;
        while i < self.entries.len()
            invariant
                i <= self.entries.len(),
                r@.len() == i,
                forall|j: int| 0 <= j < i ==> #[trigger] r.deep_view()[j] == self.entries_view()[j].0,
            decreases self.entries.len() - i,
        {
            let ghost pre = r.deep_view();
            let k = self.entries[i].0.clone();
            r.push(k);
            proof {
                assert forall|j: int| 0 <= j < i + 1 implies #[trigger] r.deep_view()[j]
                    == self.entries_view()[j].0 by {
                    if j < i {
                        assert(r.deep_view()[j] == pre[j]);
                    } else {
                        assert(r.deep_view()[j] == r@[j]@);
                    }
                }
            }
            i = i + 1;
        }
        proof {
            assert(r.deep_view() =~= self.keys_view());
        }
        r
    }

    /// Every key of the family's map stands in `keys_view`, and each key
    /// appears once.
    pub proof fn lemma_keys_complete(&self)
        requires
            self.wf(),
        ensures
            forall|k: Seq<u8>| self@.contains_key(k) <==> self.keys_view().contains(k),
            forall|i: int, j: int|
                0 <= i < j < self.keys_view().len() ==> self.keys_view()[i] != self.keys_view()[j],
            forall|i: int|
                0 <= i < self.keys_view().len() ==> self@.contains_key(#[trigger] self.keys_view()[i]),
    {
        assert forall|k: Seq<u8>| self@.contains_key(k) <==> self.keys_view().contains(k) by {
            lemma_kv_entries_map_contains(self.entries_view(), k);
            if self@.contains_key(k) {
                let i = choose|i: int|
                    0 <= i < self.entries_view().len() && (#[trigger] self.entries_view()[i]).0
                        == k;
                assert(self.keys_view()[i] == k);
            }
            if self.keys_view().contains(k) {
                let i = choose|i: int|
                    0 <= i < self.keys_view().len() && self.keys_view()[i] == k;
                assert(self.entries_view()[i].0 == k);
            }
        }
        assert forall|i: int|
            0 <= i < self.keys_view().len() implies self@.contains_key(
            #[trigger] self.keys_view()[i],
        ) by {
            lemma_kv_entries_map_index(self.entries_view(), i);
        }
    }
}

/// The catalog's store: three independent record families, addressed by
/// name.
pub struct Database {
    namespaces: Family,
    tables: Family,
    table_namespace_map: Family,
}

/// The family holding one namespace record per namespace.
pub open spec fn ns_family() -> Seq<char> {
    "NamespaceData"@
}

/// The family holding one table record per table identity.
pub open spec fn table_family() -> Seq<char> {
    "TableData"@
}

/// The family holding, per namespace, the list of its tables.
pub open spec fn index_family() -> Seq<char> {
    "TableNamespaceMap"@
}

/// The three family names differ pairwise.
pub proof fn lemma_family_names_distinct()
    ensures
        ns_family() != table_family(),
        ns_family() != index_family(),
        table_family() != index_family(),
{
    reveal_strlit("NamespaceData");
    reveal_strlit("TableData");
    reveal_strlit("TableNamespaceMap");
    assert(ns_family().len() == 13);
    assert(table_family().len() == 9);
    assert(index_family().len() == 17);
}

impl Database {
    /// The namespace-record family as a map.
    pub closed spec fn ns_map(&self) -> Map<Seq<u8>, Seq<u8>> {
        self.namespaces@
    }

    /// The table-record family as a map.
    pub closed spec fn tbl_map(&self) -> Map<Seq<u8>, Seq<u8>> {
        self.tables@
    }

    /// The namespace-to-tables index family as a map.
    pub closed spec fn idx_map(&self) -> Map<Seq<u8>, Seq<u8>> {
        self.table_namespace_map@
    }

    /// The keys of the namespace-record family, in stable order.
    pub closed spec fn ns_keys_view(&self) -> Seq<Seq<u8>> {
        self.namespaces.keys_view()
    }

    pub closed spec fn wf(&self) -> bool {
        self.namespaces.wf() && self.tables.wf() && self.table_namespace_map.wf()
    }

    /// Opens a fresh store with the three record families, all empty.
    pub fn open() -> (r: Result<Database, CatalogError>)
        ensures
            match r {
                Ok(db) => db.wf() && db.ns_map() == Map::<Seq<u8>, Seq<u8>>::empty() && db.tbl_map()
                    == Map::<Seq<u8>, Seq<u8>>::empty() && db.idx_map() == Map::<
                    Seq<u8>,
                    Seq<u8>,
                >::empty(),
                Err(_) => false,
            },
    {
        Ok(
            Database {
                namespaces: Family::new(),
                tables: Family::new(),
                table_namespace_map: Family::new(),
            },
        )
    }

    /// Stores `value` under `key` in the named family, overwriting any
    /// existing record; an unknown family name is a `NotFound` error.
    pub fn insert(&mut self, cf: &str, key: &Vec<u8>, value: &Vec<u8>) -> (r: Result<
        (),
        CatalogError,
    >)
        requires
            old(self).wf(),
        ensures
            final(self).wf(),
            cf@ == ns_family() ==> r is Ok && final(self).ns_map() == old(self).ns_map().insert(
                key@,
                value@,
            ) && final(self).tbl_map() == old(self).tbl_map() && final(self).idx_map() == old(self).idx_map(),
            cf@ == table_family() ==> r is Ok && final(self).tbl_map() == old(self).tbl_map().insert(key@, value@) && final(self).ns_map() == old(self).ns_map() && final(self).idx_map() == old(self).idx_map(),
            cf@ == index_family() ==> r is Ok && final(self).idx_map() == old(self).idx_map().insert(key@, value@) && final(self).ns_map() == old(self).ns_map() && final(self).tbl_map() == old(self).tbl_map(),
            cf@ != ns_family() && cf@ != table_family() && cf@ != index_family() ==> r
                == Err::<(), CatalogError>(CatalogError::NotFound) && *final(self) == *old(self),
    {
        proof {
            lemma_family_names_distinct();
        }
        if crate::codec::str_eq(cf, "NamespaceData") {
            self.namespaces.put(key, value);
            Ok(())
        } else if crate::codec::str_eq(cf, "TableData") {
            self.tables.put(key, value);
            Ok(())
        } else if crate::codec::str_eq(cf, "TableNamespaceMap") {
            self.table_namespace_map.put(key, value);
            Ok(())
        } else {
            Err(CatalogError::NotFound)
        }
    }

    /// Reads the record under `key` in the named family; `Ok(None)` when
    /// the key is absent, `NotFound` when the family is unknown.
    pub fn get(&self, cf: &str, key: &Vec<u8>) -> (r: Result<Option<Vec<u8>>, CatalogError>)
        requires
            self.wf(),
        ensures
            cf@ == ns_family() ==> (match r {
                Ok(Some(v)) => self.ns_map().contains_key(key@) && v@ == self.ns_map()[key@],
                Ok(None) => !self.ns_map().contains_key(key@),
                Err(_) => false,
            }),
            cf@ == table_family() ==> (match r {
                Ok(Some(v)) => self.tbl_map().contains_key(key@) && v@ == self.tbl_map()[key@],
                Ok(None) => !self.tbl_map().contains_key(key@),
                Err(_) => false,
            }),
            cf@ == index_family() ==> (match r {
                Ok(Some(v)) => self.idx_map().contains_key(key@) && v@ == self.idx_map()[key@],
                Ok(None) => !self.idx_map().contains_key(key@),
                Err(_) => false,
            }),
            cf@ != ns_family() && cf@ != table_family() && cf@ != index_family() ==> r
                == Err::<Option<Vec<u8>>, CatalogError>(CatalogError::NotFound),
    {
        proof {
            lemma_family_names_distinct();
        }
        if crate::codec::str_eq(cf, "NamespaceData") {
            Ok(self.namespaces.get(key))
        } else if crate::codec::str_eq(cf, "TableData") {
            Ok(self.tables.get(key))
        } else if crate::codec::str_eq(cf, "TableNamespaceMap") {
            Ok(self.table_namespace_map.get(key))
        } else {
            Err(CatalogError::NotFound)
        }
    }

    /// Deletes the record under `key` in the named family; deleting an
    /// absent key succeeds.
    pub fn delete(&mut self, cf: &str, key: &Vec<u8>) -> (r: Result<(), CatalogError>)
        requires
            old(self).wf(),
        ensures
            final(self).wf(),
            cf@ == ns_family() ==> r is Ok && final(self).ns_map() == old(self).ns_map().remove(
                key@,
            ) && final(self).tbl_map() == old(self).tbl_map() && final(self).idx_map() == old(self).idx_map(),
            cf@ == table_family() ==> r is Ok && final(self).tbl_map() == old(self).tbl_map().remove(key@) && final(self).ns_map() == old(self).ns_map() && final(self).idx_map() == old(self).idx_map(),
            cf@ == index_family() ==> r is Ok && final(self).idx_map() == old(self).idx_map().remove(key@) && final(self).ns_map() == old(self).ns_map() && final(self).tbl_map() == old(self).tbl_map(),
            cf@ != ns_family() && cf@ != table_family() && cf@ != index_family() ==> r
                == Err::<(), CatalogError>(CatalogError::NotFound) && *final(self) == *old(self),
    {
        proof {
            lemma_family_names_distinct();
        }
        if crate::codec::str_eq(cf, "NamespaceData") {
            self.namespaces.del(key);
            Ok(())
        } else if crate::codec::str_eq(cf, "TableData") {
            self.tables.del(key);
            Ok(())
        } else if crate::codec::str_eq(cf, "TableNamespaceMap") {
            self.table_namespace_map.del(key);
            Ok(())
        } else {
            Err(CatalogError::NotFound)
        }
    }

    /// Overwrites the record under `key`; the same upsert as [`Self::insert`].
    pub fn update(&mut self, cf: &str, key: &Vec<u8>, value: &Vec<u8>) -> (r: Result<
        (),
        CatalogError,
    >)
        requires
            old(self).wf(),
        ensures
            final(self).wf(),
            cf@ == ns_family() ==> r is Ok && final(self).ns_map() == old(self).ns_map().insert(
                key@,
                value@,
            ) && final(self).tbl_map() == old(self).tbl_map() && final(self).idx_map() == old(self).idx_map(),
            cf@ == table_family() ==> r is Ok && final(self).tbl_map() == old(self).tbl_map().insert(key@, value@) && final(self).ns_map() == old(self).ns_map() && final(self).idx_map() == old(self).idx_map(),
            cf@ == index_family() ==> r is Ok && final(self).idx_map() == old(self).idx_map().insert(key@, value@) && final(self).ns_map() == old(self).ns_map() && final(self).tbl_map() == old(self).tbl_map(),
            cf@ != ns_family() && cf@ != table_family() && cf@ != index_family() ==> r
                == Err::<(), CatalogError>(CatalogError::NotFound) && *final(self) == *old(self),
    {
        self.insert(cf, key, value)
    }

    /// All keys of the named family, in its stable order; an unknown
    /// family name is a `NotFound` error.
    pub fn list_all_keys(&self, cf: &str) -> (r: Result<Vec<Vec<u8>>, CatalogError>)
        requires
            self.wf(),
        ensures
            cf@ == ns_family() ==> (match r {
                Ok(keys) => keys.deep_view() == self.ns_keys_view() && (forall|k: Seq<u8>|
                    self.ns_map().contains_key(k) <==> keys.deep_view().contains(k)),
                Err(_) => false,
            }),
            cf@ == table_family() ==> (match r {
                Ok(keys) => forall|k: Seq<u8>|
                    self.tbl_map().contains_key(k) <==> keys.deep_view().contains(k),
                Err(_) => false,
            }),
            cf@ == index_family() ==> (match r {
                Ok(keys) => forall|k: Seq<u8>|
                    self.idx_map().contains_key(k) <==> keys.deep_view().contains(k),
                Err(_) => false,
            }),
            cf@ != ns_family() && cf@ != table_family() && cf@ != index_family() ==> r
                == Err::<Vec<Vec<u8>>, CatalogError>(CatalogError::NotFound),
            r matches Ok(keys) ==> forall|i: int, j: int|
                0 <= i < j < keys.deep_view().len() ==> keys.deep_view()[i]
                    != keys.deep_view()[j],
    {
        proof {
            lemma_family_names_distinct();
        }
        if crate::codec::str_eq(cf, "NamespaceData") {
            proof {
                self.namespaces.lemma_keys_complete();
            }
            Ok(self.namespaces.keys())
        } else if crate::codec::str_eq(cf, "TableData") {
            proof {
                self.tables.lemma_keys_complete();
            }
            Ok(self.tables.keys())
        } else if crate::codec::str_eq(cf, "TableNamespaceMap") {
            proof {
                self.table_namespace_map.lemma_keys_complete();
            }
            Ok(self.table_namespace_map.keys())
        } else {
            Err(CatalogError::NotFound)
        }
    }

    /// Releases the store.
    pub fn close(self) {
    }
}

} // verus!
