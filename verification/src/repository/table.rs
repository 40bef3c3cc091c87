//! The table repository: table lifecycle, the namespace-to-tables
//! secondary index, and rename.  A table record and its entry in the
//! owning namespace's index record must appear and disappear together;
//! the store offers no cross-record transaction, so every operation
//! keeps that invariant by explicit ordering and checks.

use vstd::prelude::*;
use vstd::pervasive::unreached;

use crate::codec::bytes_eq;
use crate::dto::{
    dec_tid_list, dec_table_value, enc_tid_list, encode_tid_list, decode_tid_list, Table,
    TableCreation, TableMetadata, TableRenameRequest,
};
use crate::error::CatalogError;
use crate::ident::{
    lemma_table_key_round_trip, spec_ns_key, spec_table_key, valid_component, valid_ns_name,
    valid_table_ident, NamespaceIdent, TableIdent, TableIdentView,
};
use crate::store::Database;

verus! {

/// The tables of a namespace as its index record shows them: the decoded
/// list when a record exists, the empty list when none does, nothing
/// when the record is malformed.
pub open spec fn idx_list_of(idx: Map<Seq<u8>, Seq<u8>>, nk: Seq<u8>) -> Option<
    Seq<TableIdentView>,
> {
    if idx.contains_key(nk) {
        dec_tid_list(idx[nk])
    } else {
        Some(Seq::empty())
    }
}

/// The list with every entry of the given table name removed.
pub open spec fn drop_name(ts: Seq<TableIdentView>, name: Seq<char>) -> Seq<TableIdentView>
    decreases ts.len(),
{
    if ts.len() == 0 {
        Seq::empty()
    } else if ts.last().name == name {
        drop_name(ts.drop_last(), name)
    } else {
        drop_name(ts.drop_last(), name).push(ts.last())
    }
}

/// What stands in the filtered list: exactly the entries whose name is
/// not the dropped one.
pub proof fn lemma_drop_name_contains(ts: Seq<TableIdentView>, name: Seq<char>, t: TableIdentView)
    ensures
        drop_name(ts, name).contains(t) <==> ts.contains(t) && t.name != name,
    decreases ts.len(),
{
    if ts.len() > 0 {
        lemma_drop_name_contains(ts.drop_last(), name, t);
        if drop_name(ts, name).contains(t) {
            if ts.last().name != name && drop_name(ts, name).last() == t {
                assert(ts.contains(t)) by {
                    assert(ts[ts.len() - 1] == t);
                }
            } else {
                let d = drop_name(ts, name);
                if ts.last().name != name {
                    let i = choose|i: int| 0 <= i < d.len() && d[i] == t;
                    if i < d.len() - 1 {
                        assert(d.drop_last()[i] == t);
                        assert(drop_name(ts.drop_last(), name).contains(t));
                    }
                }
                if ts.contains(t) {
                } else {
                    assert(ts.drop_last().contains(t));
                    let j = choose|j: int| 0 <= j < ts.drop_last().len() && ts.drop_last()[j] == t;
                    assert(ts[j] == t);
                }
            }
        }
        if ts.contains(t) && t.name != name {
            let i = choose|i: int| 0 <= i < ts.len() && ts[i] == t;
            if i < ts.len() - 1 {
                assert(ts.drop_last()[i] == t);
                assert(drop_name(ts.drop_last(), name).contains(t));
                if ts.last().name != name {
                    let d0 = drop_name(ts.drop_last(), name);
                    let j = choose|j: int| 0 <= j < d0.len() && d0[j] == t;
                    assert(drop_name(ts, name)[j] == t);
                }
            } else {
                assert(ts.last() == t);
                assert(drop_name(ts, name).last() == t);
            }
        }
    }
}

/// A decoded index record holds only valid table identities.
pub proof fn lemma_dec_tid_list_valid(b: Seq<u8>)
    ensures
        dec_tid_list(b) matches Some(ts) ==> forall|i: int|
            0 <= i < ts.len() ==> valid_table_ident(#[trigger] ts[i]),
{
    if dec_tid_list(b) is Some && b.len() > 0 {
        let ps = crate::codec::split_bytes(b, crate::codec::REC_SEP);
        let ts = dec_tid_list(b).unwrap();
        assert forall|i: int| 0 <= i < ts.len() implies valid_table_ident(#[trigger] ts[i]) by {
            assert(crate::dto::dec_tid_entry(ps[i]) is Some);
            let u = crate::codec::unescape_bytes(ps[i]).unwrap();
            crate::ident::lemma_table_key_decode_encode(u, ts[i]);
        }
    }
}

/// Two valid identities with one storage key are one identity.
pub proof fn lemma_table_key_injective(a: TableIdentView, b: TableIdentView)
    requires
        valid_table_ident(a),
        valid_table_ident(b),
        spec_table_key(a) == spec_table_key(b),
    ensures
        a == b,
{
    lemma_table_key_round_trip(a);
    lemma_table_key_round_trip(b);
}

/// Relies on uuid::Uuid::new_v4 and its canonical hyphenated rendering:
/// a fresh random identifier, so nothing is promised of the value.
#[verifier::external_body]
fn fresh_table_uuid() -> (r: String) {
    uuid::Uuid::new_v4().to_string()
}

/// Whether the list holds this identity, compared by storage key.
#[verifier::loop_isolation(false)]
fn list_contains_ident(ts: &Vec<TableIdent>, tid: &TableIdent) -> (r: bool)
    requires
        valid_table_ident(tid@),
        forall|i: int| 0 <= i < ts.deep_view().len() ==> valid_table_ident(#[trigger] ts.deep_view()[i]),
    ensures
        r == ts.deep_view().contains(tid@),
{
    let key = tid.key_bytes();
    let mut i: usize = 0;
    while i < ts.len()
        invariant
            i <= ts.len(),
            forall|j: int| 0 <= j < i ==> #[trigger] ts.deep_view()[j] != tid@,
        decreases ts.len() - i,
    {
        let ekey = ts[i].key_bytes();
        if bytes_eq(&ekey, &key) {
            proof {
                assert(ts@[i as int]@ == ts.deep_view()[i as int]);
                lemma_table_key_injective(ts.deep_view()[i as int], tid@);
                assert(ts.deep_view()[i as int] == tid@);
            }
            return true;
        }
        proof {
            assert(ts@[i as int]@ == ts.deep_view()[i as int]);
            assert(spec_table_key(ts.deep_view()[i as int]) != spec_table_key(tid@));
        }
        i = i + 1;
    }
    proof {
        if ts.deep_view().contains(tid@) {
            let j = choose|j: int| 0 <= j < ts.deep_view().len() && ts.deep_view()[j] == tid@;
            assert(ts.deep_view()[j] != tid@);
        }
    }
    false
}

/// Owns the table lifecycle, the namespace-to-tables index, and rename;
/// every operation works on the store it is handed.
pub struct TableRepository {}

impl TableRepository {
    pub fn new() -> (r: TableRepository) {
        TableRepository {  }
    }

    /// The tables registered under a namespace: the index record's
    /// contents, `Ok(None)` when the namespace exists but was never
    /// indexed, `NotFound` when the namespace record is absent.
    pub fn list_all_tables(&self, db: &Database, namespace: &NamespaceIdent) -> (r: Result<
        Option<Vec<TableIdent>>,
        CatalogError,
    >)
        requires
            db.wf(),
            valid_ns_name(namespace@),
        ensures
            r == Err::<Option<Vec<TableIdent>>, CatalogError>(CatalogError::NotFound)
                <==> !db.ns_map().contains_key(spec_ns_key(namespace@)),
            r == Err::<Option<Vec<TableIdent>>, CatalogError>(CatalogError::Serialization)
                <==> db.ns_map().contains_key(spec_ns_key(namespace@)) && db.idx_map().contains_key(
                spec_ns_key(namespace@),
            ) && dec_tid_list(db.idx_map()[spec_ns_key(namespace@)]) is None,
            match r {
                Ok(Some(ts)) => db.idx_map().contains_key(spec_ns_key(namespace@)) && dec_tid_list(
                    db.idx_map()[spec_ns_key(namespace@)],
                ) == Some(ts.deep_view()),
                Ok(None) => !db.idx_map().contains_key(spec_ns_key(namespace@)),
                Err(e) => e == CatalogError::NotFound || e == CatalogError::Serialization,
            },
    {
        let nk = namespace.key_bytes();
        let ns_rec = match db.get("NamespaceData", &nk) {
            Ok(v) => v,
            Err(_) => unreached(),
        };
        if ns_rec.is_none() {
            return Err(CatalogError::NotFound);
        }
        let idx_rec = match db.get("TableNamespaceMap", &nk) {
            Ok(v) => v,
            Err(_) => unreached(),
        };
        match idx_rec {
            Some(bytes) => match decode_tid_list(&bytes) {
                Some(ts) => Ok(Some(ts)),
                None => Err(CatalogError::Serialization),
            },
            None => Ok(None),
        }
    }

    /// Registers a table under an existing namespace: writes the table
    /// record with a fresh unique identifier, then appends the identity
    /// to the namespace's index record.  `NotFound` when the namespace
    /// record is absent; `AlreadyExists` when the index already lists
    /// the identity.
    pub fn create_table(
        &self,
        db: &mut Database,
        namespace: &NamespaceIdent,
        table_creation: &TableCreation,
    ) -> (r: Result<(), CatalogError>)
        requires
            old(db).wf(),
            valid_ns_name(namespace@),
            valid_component(table_creation.name@),
        ensures
            final(db).wf(),
            final(db).ns_map() == old(db).ns_map(),
            r == Err::<(), CatalogError>(CatalogError::NotFound) <==> !old(db).ns_map().contains_key(spec_ns_key(namespace@)),
            r == Err::<(), CatalogError>(CatalogError::Serialization) <==> old(db).ns_map().contains_key(spec_ns_key(namespace@)) && idx_list_of(
                old(db).idx_map(),
                spec_ns_key(namespace@),
            ) is None,
            r == Err::<(), CatalogError>(CatalogError::AlreadyExists) <==> old(db).ns_map().contains_key(spec_ns_key(namespace@)) && (idx_list_of(
                old(db).idx_map(),
                spec_ns_key(namespace@),
            ) matches Some(l) && l.contains(
                TableIdentView { ns: namespace@, name: table_creation.name@ },
            )),
            r is Err ==> final(db).tbl_map() == old(db).tbl_map() && final(db).idx_map() == old(db).idx_map(),
            r is Ok || r == Err::<(), CatalogError>(CatalogError::NotFound) || r == Err::<
                (),
                CatalogError,
            >(CatalogError::Serialization) || r == Err::<(), CatalogError>(
                CatalogError::AlreadyExists,
            ),
            r is Ok ==> {
                &&& final(db).tbl_map() == old(db).tbl_map().insert(
                    spec_table_key(TableIdentView { ns: namespace@, name: table_creation.name@ }),
                    final(db).tbl_map()[spec_table_key(
                        TableIdentView { ns: namespace@, name: table_creation.name@ },
                    )],
                )
                &&& dec_table_value(
                    final(db).tbl_map()[spec_table_key(
                        TableIdentView { ns: namespace@, name: table_creation.name@ },
                    )],
                ) is Some
                &&& final(db).idx_map() == old(db).idx_map().insert(
                    spec_ns_key(namespace@),
                    enc_tid_list(
                        idx_list_of(old(db).idx_map(), spec_ns_key(namespace@)).unwrap().push(
                            TableIdentView { ns: namespace@, name: table_creation.name@ },
                        ),
                    ),
                )
            },
    {
        let ghost tid_view = TableIdentView { ns: namespace@, name: table_creation.name@ };
        let nk = namespace.key_bytes();
        let ns_rec = match db.get("NamespaceData", &nk) {
            Ok(v) => v,
            Err(_) => unreached(),
        };
        if ns_rec.is_none() {
            return Err(CatalogError::NotFound);
        }
        let idx_rec = match db.get("TableNamespaceMap", &nk) {
            Ok(v) => v,
            Err(_) => unreached(),
        };
        let mut tables: Vec<TableIdent> = match idx_rec {
            Some(bytes) => match decode_tid_list(&bytes) {
                Some(ts) => ts,
                None => {
                    return Err(CatalogError::Serialization);
                },
            },
            None => Vec::new(),
        };
        proof {
            if tables.deep_view().len() == 0 {
                assert(tables.deep_view() =~= Seq::<TableIdentView>::empty());
            }
            assert(idx_list_of(old(db).idx_map(), nk@) == Some(tables.deep_view()));
            lemma_dec_tid_list_valid(
                if old(db).idx_map().contains_key(nk@) {
                    old(db).idx_map()[nk@]
                } else {
                    enc_tid_list(Seq::empty())
                },
            );
            assert forall|i: int| 0 <= i < tables.deep_view().len() implies valid_table_ident(
                #[trigger] tables.deep_view()[i],
            ) by {}
        }
        let table_id = TableIdent::new(namespace.clone(), table_creation.name.clone());
        if list_contains_ident(&tables, &table_id) {
            return Err(CatalogError::AlreadyExists);
        }
        let table_uuid = fresh_table_uuid();
        let metadata = TableMetadata { table_uuid };
        let tk = table_id.key_bytes();
        let value = metadata.encode_value();
        match db.insert("TableData", &tk, &value) {
            Ok(()) => {},
            Err(_) => unreached(),
        }
        proof {
            crate::dto::lemma_table_value_round_trip(metadata.table_uuid@);
        }
        let ghost pre_list = tables.deep_view();
        tables.push(table_id);
        proof {
            assert(tables.deep_view() =~= pre_list.push(tid_view));
        }
        let new_idx = encode_tid_list(&tables);
        match db.insert("TableNamespaceMap", &nk, &new_idx) {
            Ok(()) => Ok(()),
            Err(_) => unreached(),
        }
    }

    /// Reads a table record by its identity; `Ok(None)` when no record
    /// exists.  Index membership is not re-validated.
    pub fn load_table(&self, db: &Database, namespace: &NamespaceIdent, table_name: String) -> (r:
        Result<Option<Table>, CatalogError>)
        requires
            db.wf(),
            valid_ns_name(namespace@),
            valid_component(table_name@),
        ensures
            match r {
                Ok(Some(t)) => {
                    &&& db.tbl_map().contains_key(
                        spec_table_key(TableIdentView { ns: namespace@, name: table_name@ }),
                    )
                    &&& t.id@ == (TableIdentView { ns: namespace@, name: table_name@ })
                    &&& dec_table_value(
                        db.tbl_map()[spec_table_key(
                            TableIdentView { ns: namespace@, name: table_name@ },
                        )],
                    ) == Some(t.metadata.table_uuid@)
                },
                Ok(None) => !db.tbl_map().contains_key(
                    spec_table_key(TableIdentView { ns: namespace@, name: table_name@ }),
                ),
                Err(e) => e == CatalogError::Serialization && db.tbl_map().contains_key(
                    spec_table_key(TableIdentView { ns: namespace@, name: table_name@ }),
                ) && dec_table_value(
                    db.tbl_map()[spec_table_key(
                        TableIdentView { ns: namespace@, name: table_name@ },
                    )],
                ) is None,
            },
    {
        let table_id = TableIdent::new(namespace.clone(), table_name);
        let tk = table_id.key_bytes();
        let value = match db.get("TableData", &tk) {
            Ok(v) => v,
            Err(_) => unreached(),
        };
        match value {
            Some(bytes) => match TableMetadata::decode_value(&bytes) {
                Some(metadata) => Ok(Some(Table { id: table_id, metadata })),
                None => Err(CatalogError::Serialization),
            },
            None => Ok(None),
        }
    }

    /// Whether a record for this table identity exists and is readable.
    pub fn table_exists(&self, db: &Database, namespace: &NamespaceIdent, table_name: String) -> (r:
        Result<bool, CatalogError>)
        requires
            db.wf(),
            valid_ns_name(namespace@),
            valid_component(table_name@),
        ensures
            match r {
                Ok(b) => b == db.tbl_map().contains_key(
                    spec_table_key(TableIdentView { ns: namespace@, name: table_name@ }),
                ) && (b ==> dec_table_value(
                    db.tbl_map()[spec_table_key(
                        TableIdentView { ns: namespace@, name: table_name@ },
                    )],
                ) is Some),
                Err(e) => e == CatalogError::Serialization && db.tbl_map().contains_key(
                    spec_table_key(TableIdentView { ns: namespace@, name: table_name@ }),
                ) && dec_table_value(
                    db.tbl_map()[spec_table_key(
                        TableIdentView { ns: namespace@, name: table_name@ },
                    )],
                ) is None,
            },
    {
        let table = self.load_table(db, namespace, table_name)?;
        Ok(table.is_some())
    }

    /// Unregisters a table: removes its record, then rewrites the owning
    /// namespace's index record without any entry of that name.
    /// `NotFound` when no table record exists.
    pub fn drop_table(&self, db: &mut Database, namespace: &NamespaceIdent, table_name: String) -> (
        r: Result<(), CatalogError>)
        requires
            old(db).wf(),
            valid_ns_name(namespace@),
            valid_component(table_name@),
        ensures
            final(db).wf(),
            final(db).ns_map() == old(db).ns_map(),
            r == Err::<(), CatalogError>(CatalogError::NotFound) <==> !old(db).tbl_map().contains_key(
                spec_table_key(TableIdentView { ns: namespace@, name: table_name@ }),
            ),
            r == Err::<(), CatalogError>(CatalogError::Serialization) <==> old(db).tbl_map().contains_key(
                spec_table_key(TableIdentView { ns: namespace@, name: table_name@ }),
            ) && idx_list_of(old(db).idx_map(), spec_ns_key(namespace@)) is None,
            r is Err ==> final(db).tbl_map() == old(db).tbl_map() && final(db).idx_map() == old(db).idx_map(),
            r is Ok || r == Err::<(), CatalogError>(CatalogError::NotFound) || r == Err::<
                (),
                CatalogError,
            >(CatalogError::Serialization),
            r is Ok ==> {
                &&& final(db).tbl_map() == old(db).tbl_map().remove(
                    spec_table_key(TableIdentView { ns: namespace@, name: table_name@ }),
                )
                &&& final(db).idx_map() == old(db).idx_map().insert(
                    spec_ns_key(namespace@),
                    enc_tid_list(
                        drop_name(
                            idx_list_of(old(db).idx_map(), spec_ns_key(namespace@)).unwrap(),
                            table_name@,
                        ),
                    ),
                )
            },
    {
        let table_id = TableIdent::new(namespace.clone(), table_name);
        let tk = table_id.key_bytes();
        let nk = namespace.key_bytes();
        let rec = match db.get("TableData", &tk) {
            Ok(v) => v,
            Err(_) => unreached(),
        };
        if rec.is_none() {
            return Err(CatalogError::NotFound);
        }
        let idx_rec = match db.get("TableNamespaceMap", &nk) {
            Ok(v) => v,
            Err(_) => unreached(),
        };
        let tables: Vec<TableIdent> = match idx_rec {
            Some(bytes) => match decode_tid_list(&bytes) {
                Some(ts) => ts,
                None => {
                    return Err(CatalogError::Serialization);
                },
            },
            None => Vec::new(),
        };
        proof {
            if tables.deep_view().len() == 0 {
                assert(tables.deep_view() =~= Seq::<TableIdentView>::empty());
            }
            assert(idx_list_of(old(db).idx_map(), nk@) == Some(tables.deep_view()));
        }
        match db.delete("TableData", &tk) {
            Ok(()) => {},
            Err(_) => unreached(),
        }
        let kept = keep_other_names(&tables, table_id.name());
        let new_idx = encode_tid_list(&kept);
        match db.insert("TableNamespaceMap", &nk, &new_idx) {
            Ok(()) => Ok(()),
            Err(_) => unreached(),
        }
    }

    /// Moves a table to a new identity: loads the source, refuses an
    /// existing destination, registers the destination under its
    /// namespace with fresh metadata, then drops the source.  The two
    /// steps are separate repository calls, not one atomic move: when
    /// the drop step fails, the state is exactly the create step's
    /// effect, which [`crate::model::lemma_create_table_preserves_consistency`]
    /// shows keeps the catalog invariant.
    pub fn rename_table(&self, db: &mut Database, rename_request: &TableRenameRequest) -> (r:
        Result<(), CatalogError>)
        requires
            old(db).wf(),
            valid_table_ident(rename_request.source@),
            valid_table_ident(rename_request.destination@),
        ensures
            final(db).wf(),
            final(db).ns_map() == old(db).ns_map(),
            !old(db).tbl_map().contains_key(spec_table_key(rename_request.source@)) ==> r
                == Err::<(), CatalogError>(CatalogError::NotFound) && final(db).tbl_map() == old(db).tbl_map() && final(db).idx_map() == old(db).idx_map(),
            old(db).tbl_map().contains_key(spec_table_key(rename_request.source@))
                && old(db).tbl_map().contains_key(spec_table_key(rename_request.destination@))
                && dec_table_value(
                old(db).tbl_map()[spec_table_key(rename_request.destination@)],
            ) is Some && dec_table_value(
                old(db).tbl_map()[spec_table_key(rename_request.source@)],
            ) is Some ==> r == Err::<(), CatalogError>(CatalogError::AlreadyExists) && final(db).tbl_map() == old(db).tbl_map() && final(db).idx_map() == old(db).idx_map(),
            r == Err::<(), CatalogError>(CatalogError::AlreadyExists) ==> final(db).tbl_map()
                == old(db).tbl_map() && final(db).idx_map() == old(db).idx_map(),
            r == Err::<(), CatalogError>(CatalogError::NotFound) ==> final(db).tbl_map() == old(db).tbl_map() && final(db).idx_map() == old(db).idx_map(),
            old(db).tbl_map().contains_key(spec_table_key(rename_request.source@))
                && dec_table_value(
                old(db).tbl_map()[spec_table_key(rename_request.source@)],
            ) is Some && !old(db).tbl_map().contains_key(
                spec_table_key(rename_request.destination@),
            ) && old(db).ns_map().contains_key(spec_ns_key(rename_request.destination@.ns))
                && (idx_list_of(
                old(db).idx_map(),
                spec_ns_key(rename_request.destination@.ns),
            ) matches Some(dl) && !dl.contains(rename_request.destination@)) && idx_list_of(
                old(db).idx_map(),
                spec_ns_key(rename_request.source@.ns),
            ) is Some ==> r is Ok,
            r == Err::<(), CatalogError>(CatalogError::Serialization) ==> (final(db).tbl_map()
                == old(db).tbl_map() && final(db).idx_map() == old(db).idx_map()) || (final(db).tbl_map() == old(db).tbl_map().insert(
                spec_table_key(rename_request.destination@),
                final(db).tbl_map()[spec_table_key(rename_request.destination@)],
            ) && dec_table_value(
                final(db).tbl_map()[spec_table_key(rename_request.destination@)],
            ) is Some && idx_list_of(
                old(db).idx_map(),
                spec_ns_key(rename_request.destination@.ns),
            ) is Some && final(db).idx_map() == old(db).idx_map().insert(
                spec_ns_key(rename_request.destination@.ns),
                enc_tid_list(
                    idx_list_of(
                        old(db).idx_map(),
                        spec_ns_key(rename_request.destination@.ns),
                    ).unwrap().push(rename_request.destination@),
                ),
            )),
            r is Ok ==> {
                &&& old(db).tbl_map().contains_key(spec_table_key(rename_request.source@))
                &&& !old(db).tbl_map().contains_key(spec_table_key(rename_request.destination@))
                &&& old(db).ns_map().contains_key(spec_ns_key(rename_request.destination@.ns))
                &&& (idx_list_of(
                    old(db).idx_map(),
                    spec_ns_key(rename_request.destination@.ns),
                ) matches Some(dl) && !dl.contains(rename_request.destination@))
                &&& final(db).tbl_map() == old(db).tbl_map().insert(
                    spec_table_key(rename_request.destination@),
                    final(db).tbl_map()[spec_table_key(rename_request.destination@)],
                ).remove(spec_table_key(rename_request.source@))
                &&& dec_table_value(
                    final(db).tbl_map()[spec_table_key(rename_request.destination@)],
                ) is Some
                &&& (({
                    let mid = old(db).idx_map().insert(
                        spec_ns_key(rename_request.destination@.ns),
                        enc_tid_list(
                            idx_list_of(
                                old(db).idx_map(),
                                spec_ns_key(rename_request.destination@.ns),
                            ).unwrap().push(rename_request.destination@),
                        ),
                    );
                    final(db).idx_map() == mid.insert(
                        spec_ns_key(rename_request.source@.ns),
                        enc_tid_list(
                            drop_name(
                                idx_list_of(
                                    mid,
                                    spec_ns_key(rename_request.source@.ns),
                                ).unwrap(),
                                rename_request.source@.name,
                            ),
                        ),
                    )
                }))
            },
    {
        let source = rename_request.source.clone();
        let destination = rename_request.destination.clone();
        let namespace = source.namespace.clone();

        let loaded = match self.load_table(db, &namespace, source.name.clone()) {
            Ok(v) => v,
            Err(e) => {
                return Err(e);
            },
        };
        if loaded.is_none() {
            return Err(CatalogError::NotFound);
        }

        let dest_exists = match self.table_exists(
            db,
            &destination.namespace,
            destination.name.clone(),
        ) {
            Ok(b) => b,
            Err(e) => {
                return Err(e);
            },
        };
        if dest_exists {
            return Err(CatalogError::AlreadyExists);
        }

        let creation = TableCreation { name: destination.name.clone() };
        match self.create_table(db, &destination.namespace, &creation) {
            Ok(()) => {},
            Err(e) => {
                return Err(e);
            },
        }
        proof {
            // The drop step's index record decodes: either the create
            // step just rewrote it from valid identities, or it is the
            // untouched record of the other namespace.
            let srcv = rename_request.source@;
            let dstv = rename_request.destination@;
            let snk = spec_ns_key(srcv.ns);
            let dnk = spec_ns_key(dstv.ns);
            let pre_idx = old(db).idx_map();
            if snk == dnk {
                let dl = idx_list_of(pre_idx, dnk).unwrap();
                if pre_idx.contains_key(dnk) {
                    lemma_dec_tid_list_valid(pre_idx[dnk]);
                }
                let dl2 = dl.push(dstv);
                assert forall|i: int| 0 <= i < dl2.len() implies valid_table_ident(
                    #[trigger] dl2[i],
                ) by {
                    if i < dl.len() {
                        assert(dl2[i] == dl[i]);
                    } else {
                        assert(dl2[i] == dstv);
                    }
                }
                crate::dto::lemma_tid_list_round_trip(dl2);
            }
        }
        match self.drop_table(db, &namespace, source.name.clone()) {
            Ok(()) => Ok(()),
            Err(e) => Err(e),
        }
    }
}

/// The given list without any entry of the given table name.
#[verifier::loop_isolation(false)]
fn keep_other_names(ts: &Vec<TableIdent>, name: &str) -> (r: Vec<TableIdent>)
    ensures
        r.deep_view() == drop_name(ts.deep_view(), name@),
{
    let mut r: Vec<TableIdent> = Vec::new();
    let mut i: usize = 0;
    while i < ts.len()
        invariant
            i <= ts.len(),
            r.deep_view() =~= drop_name(ts.deep_view().take(i as int), name@),
        decreases ts.len() - i,
    {
        let ghost pre = r.deep_view();
        proof {
            assert(ts.deep_view().take(i as int + 1).drop_last() =~= ts.deep_view().take(i as int));
            assert(ts.deep_view().take(i as int + 1).last() == ts.deep_view()[i as int]);
            assert(ts@[i as int]@ == ts.deep_view()[i as int]);
        }
        if crate::codec::str_eq(ts[i].name.as_str(), name) {
            proof {
                assert(ts.deep_view()[i as int].name == name@);
            }
        } else {
            let kept = ts[i].clone();
            r.push(kept);
            proof {
                assert(r.deep_view() =~= pre.push(ts.deep_view()[i as int]));
            }
        }
        i = i + 1;
    }
    proof {
        assert(ts.deep_view().take(ts.len() as int) =~= ts.deep_view());
    }
    r
}

} // verus!
