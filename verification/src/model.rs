//! The catalog's cross-record invariant and the laws that the
//! repository operations keep.
//!
//! The store offers no cross-record transaction, so the agreement
//! between the table-record family and the namespace-to-tables index is
//! not enforced by the engine: it is stated here as
//! [`catalog_consistent`] and proved preserved by the effect of every
//! table operation, in the exact shape the repository contracts give to
//! those effects.

use vstd::prelude::*;

use crate::dto::{dec_table_value, dec_tid_list, enc_tid_list, lemma_tid_list_round_trip};
use crate::ident::{
    lemma_ns_key_round_trip, lemma_table_key_round_trip, spec_ns_key, spec_table_key,
    valid_component, valid_ns_name, valid_table_ident, TableIdentView,
};
use crate::props::enc_props;
use crate::repository::table::{
    drop_name, idx_list_of, lemma_dec_tid_list_valid, lemma_drop_name_contains,
    lemma_table_key_injective,
};

verus! {

/// Whether the index record of `nk` lists the identity `t`.
pub open spec fn listed_in(idx: Map<Seq<u8>, Seq<u8>>, nk: Seq<u8>, t: TableIdentView) -> bool {
    &&& idx.contains_key(nk)
    &&& idx_list_of(idx, nk) is Some
    &&& idx_list_of(idx, nk).unwrap().contains(t)
}

/// Two valid namespace names with one storage key are one name.
pub proof fn lemma_ns_key_injective(a: Seq<Seq<char>>, b: Seq<Seq<char>>)
    requires
        valid_ns_name(a),
        valid_ns_name(b),
        spec_ns_key(a) == spec_ns_key(b),
    ensures
        a == b,
{
    lemma_ns_key_round_trip(a);
    lemma_ns_key_round_trip(b);
}

/// The agreement between the table-record family and the
/// namespace-to-tables index:
/// every index record decodes; every listed identity is valid, belongs
/// to the namespace whose record lists it, and has a table record;
/// every table record of a valid identity is listed under its
/// namespace; and every stored table record decodes.
pub open spec fn catalog_consistent(
    tbl: Map<Seq<u8>, Seq<u8>>,
    idx: Map<Seq<u8>, Seq<u8>>,
) -> bool {
    &&& (forall|nk: Seq<u8>| #[trigger] idx.contains_key(nk) ==> dec_tid_list(idx[nk]) is Some)
    &&& (forall|nk: Seq<u8>, t: TableIdentView|
        #[trigger] listed_in(idx, nk, t) ==> valid_table_ident(t) && spec_ns_key(t.ns) == nk
            && tbl.contains_key(spec_table_key(t)))
    &&& (forall|t: TableIdentView|
        valid_table_ident(t) && #[trigger] tbl.contains_key(spec_table_key(t)) ==> listed_in(
            idx,
            spec_ns_key(t.ns),
            t,
        ))
    &&& (forall|tk: Seq<u8>| #[trigger] tbl.contains_key(tk) ==> dec_table_value(tbl[tk]) is Some)
}

/// An empty catalog is consistent.
pub proof fn lemma_empty_consistent()
    ensures
        catalog_consistent(Map::<Seq<u8>, Seq<u8>>::empty(), Map::<Seq<u8>, Seq<u8>>::empty()),
{
}

/// The set of identities a namespace's index lists equals exactly the
/// set of identities whose table record exists: what a listing returns
/// is loadable, and every loadable table is listed.
pub proof fn lemma_list_matches_records(
    tbl: Map<Seq<u8>, Seq<u8>>,
    idx: Map<Seq<u8>, Seq<u8>>,
    t: TableIdentView,
)
    requires
        catalog_consistent(tbl, idx),
        valid_table_ident(t),
    ensures
        listed_in(idx, spec_ns_key(t.ns), t) <==> tbl.contains_key(spec_table_key(t)),
        tbl.contains_key(spec_table_key(t)) ==> dec_table_value(
            tbl[spec_table_key(t)],
        ) is Some,
{
}

/// Creating a table — inserting its record and appending it to its
/// namespace's index, the exact effect `create_table` promises — keeps
/// the catalog consistent.
pub proof fn lemma_create_table_preserves_consistency(
    tbl: Map<Seq<u8>, Seq<u8>>,
    idx: Map<Seq<u8>, Seq<u8>>,
    ns: Seq<Seq<char>>,
    name: Seq<char>,
    v: Seq<u8>,
)
    requires
        catalog_consistent(tbl, idx),
        valid_ns_name(ns),
        valid_component(name),
        idx_list_of(idx, spec_ns_key(ns)) is Some,
        dec_table_value(v) is Some,
    ensures
        catalog_consistent(
            tbl.insert(spec_table_key(TableIdentView { ns, name }), v),
            idx.insert(
                spec_ns_key(ns),
                enc_tid_list(
                    idx_list_of(idx, spec_ns_key(ns)).unwrap().push(TableIdentView { ns, name }),
                ),
            ),
        ),
{
    let tid = TableIdentView { ns, name };
    let nk = spec_ns_key(ns);
    let tk = spec_table_key(tid);
    let l = idx_list_of(idx, nk).unwrap();
    let l2 = l.push(tid);
    let tbl2 = tbl.insert(tk, v);
    let idx2 = idx.insert(nk, enc_tid_list(l2));

    assert forall|i: int| 0 <= i < l2.len() implies valid_table_ident(#[trigger] l2[i]) by {
        if i < l.len() {
            assert(l.contains(l[i]));
            if idx.contains_key(nk) {
                assert(listed_in(idx, nk, l[i]));
            } else {
                assert(l.len() == 0);
            }
        }
    }
    lemma_tid_list_round_trip(l2);
    assert(idx_list_of(idx2, nk) == Some(l2));

    assert forall|nk1: Seq<u8>| #[trigger] idx2.contains_key(nk1) implies dec_tid_list(
        idx2[nk1],
    ) is Some by {
        if nk1 != nk {
            assert(idx.contains_key(nk1));
        }
    }

    assert forall|nk1: Seq<u8>, t: TableIdentView| #[trigger] listed_in(idx2, nk1, t) implies
        valid_table_ident(t) && spec_ns_key(t.ns) == nk1 && tbl2.contains_key(
        spec_table_key(t),
    ) by {
        if nk1 == nk {
            assert(idx_list_of(idx2, nk) == Some(l2));
            let i = choose|i: int| 0 <= i < l2.len() && l2[i] == t;
            if i < l.len() {
                assert(l.contains(t));
                if idx.contains_key(nk) {
                    assert(listed_in(idx, nk, t));
                } else {
                    assert(l.len() == 0);
                }
            } else {
                assert(t == tid);
            }
        } else {
            assert(idx2[nk1] == idx[nk1]);
            assert(idx_list_of(idx2, nk1) == idx_list_of(idx, nk1));
            assert(listed_in(idx, nk1, t));
        }
    }

    assert forall|t: TableIdentView|
        valid_table_ident(t) && #[trigger] tbl2.contains_key(spec_table_key(t)) implies listed_in(
        idx2,
        spec_ns_key(t.ns),
        t,
    ) by {
        if spec_table_key(t) == tk {
            lemma_table_key_injective(t, tid);
            assert(l2.contains(tid)) by {
                assert(l2[l2.len() - 1] == tid);
            }
        } else {
            assert(tbl.contains_key(spec_table_key(t)));
            assert(listed_in(idx, spec_ns_key(t.ns), t));
            if spec_ns_key(t.ns) == nk {
                let l0 = idx_list_of(idx, nk).unwrap();
                let i = choose|i: int| 0 <= i < l0.len() && l0[i] == t;
                assert(l2[i] == t);
                assert(l2.contains(t));
            } else {
                assert(idx2[spec_ns_key(t.ns)] == idx[spec_ns_key(t.ns)]);
                assert(idx_list_of(idx2, spec_ns_key(t.ns)) == idx_list_of(
                    idx,
                    spec_ns_key(t.ns),
                ));
            }
        }
    }

    assert forall|tk1: Seq<u8>| #[trigger] tbl2.contains_key(tk1) implies dec_table_value(
        tbl2[tk1],
    ) is Some by {
        if tk1 != tk {
            assert(tbl.contains_key(tk1));
        }
    }
}

/// Dropping a table — removing its record and filtering its name out of
/// its namespace's index, the exact effect `drop_table` promises —
/// keeps the catalog consistent.
pub proof fn lemma_drop_table_preserves_consistency(
    tbl: Map<Seq<u8>, Seq<u8>>,
    idx: Map<Seq<u8>, Seq<u8>>,
    ns: Seq<Seq<char>>,
    name: Seq<char>,
)
    requires
        catalog_consistent(tbl, idx),
        valid_ns_name(ns),
        valid_component(name),
        idx_list_of(idx, spec_ns_key(ns)) is Some,
    ensures
        catalog_consistent(
            tbl.remove(spec_table_key(TableIdentView { ns, name })),
            idx.insert(
                spec_ns_key(ns),
                enc_tid_list(drop_name(idx_list_of(idx, spec_ns_key(ns)).unwrap(), name)),
            ),
        ),
{
    let tid = TableIdentView { ns, name };
    let nk = spec_ns_key(ns);
    let tk = spec_table_key(tid);
    let l = idx_list_of(idx, nk).unwrap();
    let l2 = drop_name(l, name);
    let tbl2 = tbl.remove(tk);
    let idx2 = idx.insert(nk, enc_tid_list(l2));

    assert forall|i: int| 0 <= i < l2.len() implies valid_table_ident(#[trigger] l2[i]) by {
        lemma_drop_name_contains(l, name, l2[i]);
        assert(l2.contains(l2[i]));
        assert(l.contains(l2[i]));
        if idx.contains_key(nk) {
            assert(listed_in(idx, nk, l2[i]));
        } else {
            assert(l.len() == 0);
        }
    }
    lemma_tid_list_round_trip(l2);
    assert(idx_list_of(idx2, nk) == Some(l2));

    assert forall|nk1: Seq<u8>| #[trigger] idx2.contains_key(nk1) implies dec_tid_list(
        idx2[nk1],
    ) is Some by {
        if nk1 != nk {
            assert(idx.contains_key(nk1));
        }
    }

    assert forall|nk1: Seq<u8>, t: TableIdentView| #[trigger] listed_in(idx2, nk1, t) implies
        valid_table_ident(t) && spec_ns_key(t.ns) == nk1 && tbl2.contains_key(
        spec_table_key(t),
    ) by {
        if nk1 == nk {
            lemma_drop_name_contains(l, name, t);
            assert(l.contains(t) && t.name != name);
            if idx.contains_key(nk) {
                assert(listed_in(idx, nk, t));
            } else {
                assert(l.len() == 0);
            }
            lemma_ns_key_injective(t.ns, ns);
            assert(t != tid);
            if spec_table_key(t) == tk {
                lemma_table_key_injective(t, tid);
            }
            assert(spec_table_key(t) != tk);
        } else {
            assert(idx2[nk1] == idx[nk1]);
            assert(idx_list_of(idx2, nk1) == idx_list_of(idx, nk1));
            assert(listed_in(idx, nk1, t));
            if spec_table_key(t) == tk {
                lemma_table_key_injective(t, tid);
                assert(spec_ns_key(t.ns) == nk);
            }
        }
    }

    assert forall|t: TableIdentView|
        valid_table_ident(t) && #[trigger] tbl2.contains_key(spec_table_key(t)) implies listed_in(
        idx2,
        spec_ns_key(t.ns),
        t,
    ) by {
        assert(spec_table_key(t) != tk);
        assert(tbl.contains_key(spec_table_key(t)));
        assert(listed_in(idx, spec_ns_key(t.ns), t));
        if spec_ns_key(t.ns) == nk {
            lemma_ns_key_injective(t.ns, ns);
            if t.name == name {
                assert(t == tid);
                assert(false);
            }
            lemma_drop_name_contains(l, name, t);
        } else {
            assert(idx2[spec_ns_key(t.ns)] == idx[spec_ns_key(t.ns)]);
            assert(idx_list_of(idx2, spec_ns_key(t.ns)) == idx_list_of(idx, spec_ns_key(t.ns)));
        }
    }

    assert forall|tk1: Seq<u8>| #[trigger] tbl2.contains_key(tk1) implies dec_table_value(
        tbl2[tk1],
    ) is Some by {
        assert(tbl.contains_key(tk1));
    }
}

/// Renaming a table — the create-then-drop effect `rename_table`
/// promises — keeps the catalog consistent.
pub proof fn lemma_rename_preserves_consistency(
    tbl: Map<Seq<u8>, Seq<u8>>,
    idx: Map<Seq<u8>, Seq<u8>>,
    src: TableIdentView,
    dst: TableIdentView,
    v: Seq<u8>,
)
    requires
        catalog_consistent(tbl, idx),
        valid_table_ident(src),
        valid_table_ident(dst),
        idx_list_of(idx, spec_ns_key(dst.ns)) is Some,
        idx_list_of(idx, spec_ns_key(src.ns)) is Some,
        dec_table_value(v) is Some,
    ensures
        (({
            let tbl_mid = tbl.insert(spec_table_key(dst), v);
            let idx_mid = idx.insert(
                spec_ns_key(dst.ns),
                enc_tid_list(idx_list_of(idx, spec_ns_key(dst.ns)).unwrap().push(dst)),
            );
            catalog_consistent(
                tbl_mid.remove(spec_table_key(src)),
                idx_mid.insert(
                    spec_ns_key(src.ns),
                    enc_tid_list(
                        drop_name(idx_list_of(idx_mid, spec_ns_key(src.ns)).unwrap(), src.name),
                    ),
                ),
            )
        })),
{
    lemma_create_table_preserves_consistency(tbl, idx, dst.ns, dst.name, v);
    let tbl_mid = tbl.insert(spec_table_key(dst), v);
    let idx_mid = idx.insert(
        spec_ns_key(dst.ns),
        enc_tid_list(idx_list_of(idx, spec_ns_key(dst.ns)).unwrap().push(dst)),
    );
    assert(idx_list_of(idx_mid, spec_ns_key(src.ns)) is Some) by {
        if spec_ns_key(src.ns) == spec_ns_key(dst.ns) {
            let l2 = idx_list_of(idx, spec_ns_key(dst.ns)).unwrap().push(dst);
            assert forall|i: int| 0 <= i < l2.len() implies valid_table_ident(
                #[trigger] l2[i],
            ) by {
                let l = idx_list_of(idx, spec_ns_key(dst.ns)).unwrap();
                if i < l.len() {
                    assert(l.contains(l[i]));
                    if idx.contains_key(spec_ns_key(dst.ns)) {
                        assert(listed_in(idx, spec_ns_key(dst.ns), l[i]));
                    } else {
                        assert(l.len() == 0);
                    }
                }
            }
            lemma_tid_list_round_trip(l2);
        } else {
            assert(idx_mid.contains_key(spec_ns_key(src.ns)) == idx.contains_key(
                spec_ns_key(src.ns),
            ));
            if idx.contains_key(spec_ns_key(src.ns)) {
                assert(idx_mid[spec_ns_key(src.ns)] == idx[spec_ns_key(src.ns)]);
            }
        }
    }
    lemma_drop_table_preserves_consistency(tbl_mid, idx_mid, src.ns, src.name);
}

/// Under the catalog invariant, a rename needs nothing beyond its
/// stated premise: when the destination has no table record, both
/// namespaces' index records decode and the destination is not yet
/// listed — exactly the side conditions under which `rename_table`
/// owes success.
pub proof fn lemma_consistent_rename_preconditions(
    tbl: Map<Seq<u8>, Seq<u8>>,
    idx: Map<Seq<u8>, Seq<u8>>,
    src: TableIdentView,
    dst: TableIdentView,
)
    requires
        catalog_consistent(tbl, idx),
        !tbl.contains_key(spec_table_key(dst)),
    ensures
        idx_list_of(idx, spec_ns_key(src.ns)) is Some,
        idx_list_of(idx, spec_ns_key(dst.ns)) is Some,
        (idx_list_of(idx, spec_ns_key(dst.ns)) matches Some(dl) && !dl.contains(dst)),
{
    let snk = spec_ns_key(src.ns);
    let dnk = spec_ns_key(dst.ns);
    if idx.contains_key(snk) {
        assert(dec_tid_list(idx[snk]) is Some);
    }
    if idx.contains_key(dnk) {
        assert(dec_tid_list(idx[dnk]) is Some);
        let dl = idx_list_of(idx, dnk).unwrap();
        if dl.contains(dst) {
            assert(listed_in(idx, dnk, dst));
            assert(tbl.contains_key(spec_table_key(dst)));
        }
    }
}

/// Creating a namespace and then asking for it always answers yes, and
/// deleting it and then asking always answers no: the namespace record
/// family behaves as a map under the keys the repository writes.
pub proof fn lemma_create_then_exists(m: Map<Seq<u8>, Seq<u8>>, name: Seq<Seq<char>>, v: Seq<u8>)
    ensures
        m.insert(spec_ns_key(name), v).contains_key(spec_ns_key(name)),
        !m.remove(spec_ns_key(name)).contains_key(spec_ns_key(name)),
{
}

/// Creating a table twice conflicts: after the index effect of one
/// create, the namespace's index lists the identity, which is exactly
/// the condition under which `create_table` answers `AlreadyExists`.
pub proof fn lemma_create_then_create_conflicts(
    idx: Map<Seq<u8>, Seq<u8>>,
    ns: Seq<Seq<char>>,
    name: Seq<char>,
)
    requires
        valid_ns_name(ns),
        valid_component(name),
        idx_list_of(idx, spec_ns_key(ns)) is Some,
        forall|i: int|
            0 <= i < idx_list_of(idx, spec_ns_key(ns)).unwrap().len() ==> valid_table_ident(
                #[trigger] idx_list_of(idx, spec_ns_key(ns)).unwrap()[i],
            ),
    ensures
        (({
            let tid = TableIdentView { ns, name };
            let idx2 = idx.insert(
                spec_ns_key(ns),
                enc_tid_list(idx_list_of(idx, spec_ns_key(ns)).unwrap().push(tid)),
            );
            idx_list_of(idx2, spec_ns_key(ns)) matches Some(l) && l.contains(tid)
        })),
{
    let tid = TableIdentView { ns, name };
    let l2 = idx_list_of(idx, spec_ns_key(ns)).unwrap().push(tid);
    lemma_tid_list_round_trip(l2);
    assert(l2[l2.len() - 1] == tid);
    assert(l2.contains(tid));
}

} // verus!
