//! The namespace repository: namespace lifecycle and property mutation
//! over the namespace record family.

use vstd::prelude::*;
use vstd::pervasive::unreached;
use vstd::string::StrSliceExecFns;

use crate::dto::NamespaceData;
use crate::error::CatalogError;
use crate::ident::{spec_decode_ns_key, spec_ns_key, valid_ns_name, NamespaceIdent};
use crate::props::{
    apply_diff, apply_removals, apply_updates, dec_props, enc_props, entries_map, PropMap,
    PropValueView,
};
use crate::store::Database;

verus! {

/// The default properties of a newly created namespace.
pub open spec fn default_props_entries() -> Seq<(Seq<char>, PropValueView)> {
    seq![("last_modified_time"@, PropValueView::Str("current_time"@))]
}

/// The last-modified marker written into default namespace properties.
pub fn current_time() -> (r: String)
    ensures
        r@ == "current_time"@,
{
    "current_time".to_owned()
}

/// Owns the namespace lifecycle; every operation touches only the
/// namespace record family of the store it is handed.
pub struct NamespaceRepository {}

impl NamespaceRepository {
    pub fn new() -> (r: NamespaceRepository) {
        NamespaceRepository {  }
    }

    /// Every namespace with a record in the store, each one decoded from
    /// its storage key.
    #[verifier::loop_isolation(false)]
    pub fn list_all_namespaces(&self, db: &Database) -> (r: Result<
        Vec<NamespaceIdent>,
        CatalogError,
    >)
        requires
            db.wf(),
        ensures
            match r {
                Ok(list) => {
                    &&& forall|j: int|
                        0 <= j < list.deep_view().len() ==> valid_ns_name(
                            #[trigger] list.deep_view()[j],
                        ) && db.ns_map().contains_key(spec_ns_key(list.deep_view()[j]))
                    &&& forall|k: Seq<u8>|
                        db.ns_map().contains_key(k) ==> exists|j: int|
                            0 <= j < list.deep_view().len() && spec_ns_key(
                                #[trigger] list.deep_view()[j],
                            ) == k
                    &&& forall|i: int, j: int|
                        0 <= i < j < list.deep_view().len() ==> #[trigger] list.deep_view()[i]
                            != #[trigger] list.deep_view()[j]
                },
                Err(e) => e == CatalogError::Serialization && exists|k: Seq<u8>|
                    #[trigger] db.ns_map().contains_key(k) && spec_decode_ns_key(k) is None,
            },
    {
        broadcast use crate::codec::lemma_vec_u8_deep_view;

        let keys = match db.list_all_keys("NamespaceData") {
            Ok(keys) => keys,
            Err(_) => unreached(),
        };
        let mut list: Vec<NamespaceIdent> = Vec::new();
        let mut i: usize = 0;
        while i < keys.len()
            invariant
                i <= keys.len(),
                keys.deep_view() == db.ns_keys_view(),
                forall|k: Seq<u8>|
                    db.ns_map().contains_key(k) <==> keys.deep_view().contains(k),
                list.deep_view().len() == i,
                forall|j: int|
                    0 <= j < i ==> valid_ns_name(#[trigger] list.deep_view()[j]) && spec_ns_key(
                        list.deep_view()[j],
                    ) == keys.deep_view()[j],
            decreases keys.len() - i,
        {
            proof {
                assert(keys@[i as int]@ == keys.deep_view()[i as int]);
            }
            match NamespaceIdent::from_key_bytes(&keys[i]) {
                Some(ns) => {
                    let ghost pre = list.deep_view();
                    list.push(ns);
                    proof {
                        assert forall|j: int|
                            0 <= j < i + 1 implies valid_ns_name(#[trigger] list.deep_view()[j])
                            && spec_ns_key(list.deep_view()[j]) == keys.deep_view()[j] by {
                            if j < i {
                                assert(list.deep_view()[j] == pre[j]);
                            } else {
                                assert(list.deep_view()[j] == list@[j]@);
                            }
                        }
                    }
                },
                None => {
                    proof {
                        assert(keys.deep_view().contains(keys.deep_view()[i as int]));
                        assert(db.ns_map().contains_key(keys.deep_view()[i as int]));
                    }
                    return Err(CatalogError::Serialization);
                },
            }
            i = i + 1;
        }
        proof {
            assert forall|j: int|
                0 <= j < list.deep_view().len() implies valid_ns_name(
                #[trigger] list.deep_view()[j],
            ) && db.ns_map().contains_key(spec_ns_key(list.deep_view()[j])) by {
                assert(keys.deep_view().contains(keys.deep_view()[j]));
            }
            assert forall|k: Seq<u8>| db.ns_map().contains_key(k) implies exists|j: int|
                0 <= j < list.deep_view().len() && spec_ns_key(#[trigger] list.deep_view()[j])
                == k by {
                assert(keys.deep_view().contains(k));
                let j = choose|j: int|
                    0 <= j < keys.deep_view().len() && #[trigger] keys.deep_view()[j] == k;
                assert(spec_ns_key(list.deep_view()[j]) == k);
            }
            assert forall|i: int, j: int|
                0 <= i < j < list.deep_view().len() implies #[trigger] list.deep_view()[i]
                != #[trigger] list.deep_view()[j] by {
                assert(spec_ns_key(list.deep_view()[i]) == keys.deep_view()[i]);
                assert(spec_ns_key(list.deep_view()[j]) == keys.deep_view()[j]);
                assert(keys.deep_view()[i] != keys.deep_view()[j]);
            }
        }
        Ok(list)
    }

    /// Writes the namespace record, with the given or the default
    /// properties; an existing record is silently overwritten, so a
    /// caller that must surface a conflict checks existence first.
    pub fn create_namespace(
        &self,
        db: &mut Database,
        name: NamespaceIdent,
        properties: Option<PropMap>,
    ) -> (r: Result<(), CatalogError>)
        requires
            old(db).wf(),
            valid_ns_name(name@),
            properties matches Some(p) ==> p.wf(),
        ensures
            final(db).wf(),
            r is Ok,
            final(db).ns_map() == old(db).ns_map().insert(
                spec_ns_key(name@),
                enc_props(
                    match properties {
                        Some(p) => p.entries_view(),
                        None => default_props_entries(),
                    },
                ),
            ),
            final(db).tbl_map() == old(db).tbl_map(),
            final(db).idx_map() == old(db).idx_map(),
    {
        let props = match properties {
            Some(p) => p,
            None => {
                let mut p = PropMap::new();
                p.insert("last_modified_time".to_owned(), crate::props::PropValue::Str(current_time()));
                proof {
                    assert(p.entries_view() =~= default_props_entries());
                }
                p
            },
        };
        let key = name.key_bytes();
        let value = props.encode();
        match db.insert("NamespaceData", &key, &value) {
            Ok(()) => Ok(()),
            Err(_) => unreached(),
        }
    }

    /// Removes the namespace record; deleting an absent namespace is a
    /// no-op success.
    pub fn delete_namespace(&self, db: &mut Database, name: &NamespaceIdent) -> (r: Result<
        (),
        CatalogError,
    >)
        requires
            old(db).wf(),
            valid_ns_name(name@),
        ensures
            final(db).wf(),
            r is Ok,
            final(db).ns_map() == old(db).ns_map().remove(spec_ns_key(name@)),
            final(db).tbl_map() == old(db).tbl_map(),
            final(db).idx_map() == old(db).idx_map(),
    {
        let key = name.key_bytes();
        match db.delete("NamespaceData", &key) {
            Ok(()) => Ok(()),
            Err(_) => unreached(),
        }
    }

    /// Reads the namespace record; `Ok(None)` when no record exists.
    pub fn load_namespace(&self, db: &Database, name: &NamespaceIdent) -> (r: Result<
        Option<NamespaceData>,
        CatalogError,
    >)
        requires
            db.wf(),
            valid_ns_name(name@),
        ensures
            match r {
                Ok(Some(data)) => {
                    &&& db.ns_map().contains_key(spec_ns_key(name@))
                    &&& data.name@ == name@
                    &&& data.properties.wf()
                    &&& (dec_props(db.ns_map()[spec_ns_key(name@)]) matches Some(ds)
                        && data.properties@ == entries_map(ds))
                },
                Ok(None) => !db.ns_map().contains_key(spec_ns_key(name@)),
                Err(e) => e == CatalogError::Serialization && db.ns_map().contains_key(
                    spec_ns_key(name@),
                ) && dec_props(db.ns_map()[spec_ns_key(name@)]) is None,
            },
    {
        let key = name.key_bytes();
        let value = match db.get("NamespaceData", &key) {
            Ok(v) => v,
            Err(_) => unreached(),
        };
        match value {
            Some(v) => match PropMap::decode(&v) {
                Some(props) => Ok(
                    Some(NamespaceData { name: name.clone(), properties: props }),
                ),
                None => Err(CatalogError::Serialization),
            },
            None => Ok(None),
        }
    }

    /// Whether a record for this namespace exists.
    pub fn namespace_exists(&self, db: &Database, name: &NamespaceIdent) -> (r: Result<
        bool,
        CatalogError,
    >)
        requires
            db.wf(),
            valid_ns_name(name@),
        ensures
            r matches Ok(b) && b == db.ns_map().contains_key(spec_ns_key(name@)),
    {
        let key = name.key_bytes();
        match db.get("NamespaceData", &key) {
            Ok(v) => Ok(v.is_some()),
            Err(_) => unreached(),
        }
    }

    /// Applies a property diff to an existing namespace: every removal
    /// first, then every update in order, so an update wins over a
    /// removal of the same key in one call; the merged map is persisted
    /// under the same identity.  `NotFound` when no record exists.
    #[verifier::loop_isolation(false)]
    pub fn set_namespace_properties(
        &self,
        db: &mut Database,
        name: NamespaceIdent,
        removals: Vec<String>,
        updates: PropMap,
    ) -> (r: Result<(), CatalogError>)
        requires
            old(db).wf(),
            valid_ns_name(name@),
            updates.wf(),
        ensures
            final(db).wf(),
            final(db).tbl_map() == old(db).tbl_map(),
            final(db).idx_map() == old(db).idx_map(),
            r == Err::<(), CatalogError>(CatalogError::NotFound) <==> !old(db).ns_map().contains_key(
                spec_ns_key(name@),
            ),
            r is Err ==> final(db).ns_map() == old(db).ns_map(),
            r == Err::<(), CatalogError>(CatalogError::Serialization) ==> old(
                db,
            ).ns_map().contains_key(spec_ns_key(name@)) && dec_props(
                old(db).ns_map()[spec_ns_key(name@)],
            ) is None,
            r is Ok || r == Err::<(), CatalogError>(CatalogError::NotFound) || r == Err::<
                (),
                CatalogError,
            >(CatalogError::Serialization),
            r is Ok ==> {
                &&& old(db).ns_map().contains_key(spec_ns_key(name@))
                &&& dec_props(old(db).ns_map()[spec_ns_key(name@)]) is Some
                &&& final(db).ns_map() == old(db).ns_map().insert(
                    spec_ns_key(name@),
                    final(db).ns_map()[spec_ns_key(name@)],
                )
                &&& (dec_props(final(db).ns_map()[spec_ns_key(name@)]) matches Some(es)
                    && entries_map(es) == apply_diff(
                    entries_map(dec_props(old(db).ns_map()[spec_ns_key(name@)]).unwrap()),
                    removals.deep_view(),
                    updates.entries_view(),
                ))
            },
    {
        let key = name.key_bytes();
        let stored = match db.get("NamespaceData", &key) {
            Ok(v) => v,
            Err(_) => unreached(),
        };
        let value = match stored {
            Some(v) => v,
            None => {
                return Err(CatalogError::NotFound);
            },
        };
        let mut props = match PropMap::decode(&value) {
            Some(p) => p,
            None => {
                return Err(CatalogError::Serialization);
            },
        };
        let ghost m0 = props@;

        let mut i: usize = 0;
        while i < removals.len()
            invariant
                i <= removals.len(),
                props.wf(),
                props@ == apply_removals(m0, removals.deep_view().take(i as int)),
            decreases removals.len() - i,
        {
            proof {
                lemma_apply_removals_snoc(m0, removals.deep_view(), i as int);
            }
            props.remove(removals[i].as_str());
            i = i + 1;
        }
        proof {
            assert(removals.deep_view().take(removals.len() as int) =~= removals.deep_view());
        }
        let ghost m1 = props@;

        let nupd = updates.len();
        let mut j: usize = 0;
        while j < nupd
            invariant
                nupd == updates.entries_view().len(),
                j <= nupd,
                props.wf(),
                updates.wf(),
                props@ == apply_updates(m1, updates.entries_view().take(j as int)),
            decreases nupd - j,
        {
            proof {
                lemma_apply_updates_snoc(m1, updates.entries_view(), j as int);
            }
            let k = updates.key_at(j).clone();
            let v = updates.value_at(j).duplicate();
            props.insert(k, v);
            j = j + 1;
        }
        proof {
            assert(updates.entries_view().take(nupd as int) =~= updates.entries_view());
        }

        let new_value = props.encode();
        let ghost es = props.entries_view();
        match db.update("NamespaceData", &key, &new_value) {
            Ok(()) => {
                proof {
                    crate::props::lemma_props_round_trip(es);
                }
                Ok(())
            },
            Err(_) => unreached(),
        }
    }
}

/// Applying one more removal extends the fold by one `remove`.
proof fn lemma_apply_removals_snoc(
    m: Map<Seq<char>, PropValueView>,
    rs: Seq<Seq<char>>,
    i: int,
)
    requires
        0 <= i < rs.len(),
    ensures
        apply_removals(m, rs.take(i + 1)) == apply_removals(m, rs.take(i)).remove(rs[i]),
    decreases i,
{
    let a = rs.take(i + 1);
    let b = rs.take(i);
    if i == 0 {
        assert(a =~= seq![rs[0]]);
        assert(b =~= Seq::<Seq<char>>::empty());
        assert(a.drop_first() =~= Seq::<Seq<char>>::empty());
        assert(apply_removals(m, a) == apply_removals(m.remove(a[0]), a.drop_first()));
        assert(apply_removals(m.remove(a[0]), a.drop_first()) == m.remove(rs[0]));
        assert(apply_removals(m, b) == m);
    } else {
        let rs2 = rs.drop_first();
        lemma_apply_removals_snoc(m.remove(rs[0]), rs2, i - 1);
        assert(a[0] == rs[0]);
        assert(b[0] == rs[0]);
        assert(a.drop_first() =~= rs2.take(i));
        assert(b.drop_first() =~= rs2.take(i - 1));
        assert(rs2[i - 1] == rs[i]);
        assert(apply_removals(m, a) == apply_removals(m.remove(rs[0]), a.drop_first()));
        assert(apply_removals(m.remove(rs[0]), a.drop_first()) == apply_removals(
            m.remove(rs[0]),
            rs2.take(i),
        ));
        assert(apply_removals(m, b) == apply_removals(m.remove(rs[0]), rs2.take(i - 1)));
    }
}

/// Applying one more update extends the fold by one `insert`.
proof fn lemma_apply_updates_snoc(
    m: Map<Seq<char>, PropValueView>,
    us: Seq<(Seq<char>, PropValueView)>,
    i: int,
)
    requires
        0 <= i < us.len(),
    ensures
        apply_updates(m, us.take(i + 1)) == apply_updates(m, us.take(i)).insert(
            us[i].0,
            us[i].1,
        ),
    decreases i,
{
    let a = us.take(i + 1);
    let b = us.take(i);
    if i == 0 {
        assert(a =~= seq![us[0]]);
        assert(b =~= Seq::<(Seq<char>, PropValueView)>::empty());
        assert(a.drop_first() =~= Seq::<(Seq<char>, PropValueView)>::empty());
        assert(apply_updates(m, a) == apply_updates(m.insert(a[0].0, a[0].1), a.drop_first()));
        assert(apply_updates(m.insert(a[0].0, a[0].1), a.drop_first()) == m.insert(
            us[0].0,
            us[0].1,
        ));
        assert(apply_updates(m, b) == m);
    } else {
        let us2 = us.drop_first();
        lemma_apply_updates_snoc(m.insert(us[0].0, us[0].1), us2, i - 1);
        assert(a[0] == us[0]);
        assert(b[0] == us[0]);
        assert(a.drop_first() =~= us2.take(i));
        assert(b.drop_first() =~= us2.take(i - 1));
        assert(us2[i - 1] == us[i]);
        assert(apply_updates(m, a) == apply_updates(m.insert(us[0].0, us[0].1), a.drop_first()));
        assert(apply_updates(m.insert(us[0].0, us[0].1), a.drop_first()) == apply_updates(
            m.insert(us[0].0, us[0].1),
            us2.take(i),
        ));
        assert(apply_updates(m, b) == apply_updates(m.insert(us[0].0, us[0].1), us2.take(i - 1)));
    }
}

} // verus!
