//! The catalog's record and request/response shapes, and the stored form
//! of the table record and of the namespace-to-tables index record.

use vstd::prelude::*;
use vstd::string::StrSliceExecFns;
use vstd::utf8::{decode_utf8, encode_utf8, valid_utf8};

use crate::codec::{
    escape_bytes, escape_vec, join_bytes, join_vec, lemma_escape_sep_free, lemma_split_join,
    lemma_unescape_escape, sep_free, split_bytes, split_vec, str_to_bytes, string_from_utf8,
    unescape_bytes, unescape_vec, REC_SEP, UNIT_SEP,
};
use crate::ident::{
    lemma_table_key_round_trip, spec_decode_table_key, spec_table_key, valid_table_ident,
    NamespaceIdent, TableIdent, TableIdentView,
};
use crate::props::PropMap;

verus! {

/// A namespace record: its identifier and its properties.  The stored
/// value holds the properties; the identifier is the record's key.
#[derive(Debug)]
pub struct NamespaceData {
    pub name: NamespaceIdent,
    pub properties: PropMap,
}

impl NamespaceData {
    pub fn get_name(&self) -> (r: &NamespaceIdent)
        ensures
            r == &self.name,
    {
        &self.name
    }

    pub fn get_properties(&self) -> (r: &PropMap)
        ensures
            r == &self.properties,
    {
        &self.properties
    }
}

/// The table metadata kept by the catalog: a placeholder holding the
/// table's unique identifier.
#[derive(Debug, PartialEq, Eq)]
pub struct TableMetadata {
    pub table_uuid: String,
}

/// A table record: its identity and its metadata.
#[derive(Debug)]
pub struct Table {
    pub id: TableIdent,
    pub metadata: TableMetadata,
}

/// What a caller supplies to create a table.
pub struct TableCreation {
    /// The name of the table.
    pub name: String,
}

/// A rename request: the source identity and the destination identity.
pub struct TableRenameRequest {
    pub source: TableIdent,
    pub destination: TableIdent,
}

/// A property-update request: keys to remove, then entries to set.
pub struct SetNamespacePropertiesRequest {
    pub removals: Vec<String>,
    pub updates: PropMap,
}

/// A metrics report record; the statistics endpoints sit outside the
/// catalog core and only carry this shape.
pub struct OperatorStatistics {
    pub operator_string: String,
    pub cardinality_prev_result: u64,
}

/// The stored form of a table record's value: the UTF-8 bytes of the
/// table's unique identifier.  The identity is the record's key.
pub open spec fn enc_table_value(uuid: Seq<char>) -> Seq<u8> {
    encode_utf8(uuid)
}

pub open spec fn dec_table_value(b: Seq<u8>) -> Option<Seq<char>> {
    if valid_utf8(b) {
        Some(decode_utf8(b))
    } else {
        None
    }
}

/// Round trip: a stored table value decodes back to the identifier.
pub proof fn lemma_table_value_round_trip(uuid: Seq<char>)
    ensures
        dec_table_value(enc_table_value(uuid)) == Some(uuid),
{
    vstd::utf8::encode_utf8_valid_utf8(uuid);
    vstd::utf8::encode_utf8_decode_utf8(uuid);
}

impl TableMetadata {
    /// This metadata in its stored form.
    pub fn encode_value(&self) -> (r: Vec<u8>)
        ensures
            r@ == enc_table_value(self.table_uuid@),
    {
        str_to_bytes(self.table_uuid.as_str())
    }

    /// A stored table value read back.
    pub fn decode_value(b: &Vec<u8>) -> (r: Option<TableMetadata>)
        ensures
            match r {
                Some(m) => dec_table_value(b@) == Some(m.table_uuid@),
                None => dec_table_value(b@) is None,
            },
    {
        match string_from_utf8(b) {
            Some(s) => {
                proof {
                    vstd::utf8::encode_utf8_valid_utf8(s@);
                    vstd::utf8::encode_utf8_decode_utf8(s@);
                }
                Some(TableMetadata { table_uuid: s })
            },
            None => None,
        }
    }
}

/// The stored form of a namespace's index record: each table identity's
/// storage key, escaped, the entries joined by the record separator.
pub open spec fn enc_tid_list(ts: Seq<TableIdentView>) -> Seq<u8> {
    if ts.len() == 0 {
        Seq::empty()
    } else {
        join_bytes(Seq::new(ts.len(), |i: int| escape_bytes(spec_table_key(ts[i]))), REC_SEP)
    }
}

pub open spec fn dec_tid_entry(p: Seq<u8>) -> Option<TableIdentView> {
    match unescape_bytes(p) {
        Some(u) => spec_decode_table_key(u),
        None => None,
    }
}

pub open spec fn dec_tid_list(b: Seq<u8>) -> Option<Seq<TableIdentView>> {
    if b.len() == 0 {
        Some(Seq::empty())
    } else {
        let ps = split_bytes(b, REC_SEP);
        if forall|i: int| 0 <= i < ps.len() ==> dec_tid_entry(#[trigger] ps[i]) is Some {
            Some(Seq::new(ps.len(), |i: int| dec_tid_entry(ps[i]).unwrap()))
        } else {
            None
        }
    }
}

/// Round trip: an index record of valid identities decodes back to them.
pub proof fn lemma_tid_list_round_trip(ts: Seq<TableIdentView>)
    requires
        forall|i: int| 0 <= i < ts.len() ==> valid_table_ident(#[trigger] ts[i]),
    ensures
        dec_tid_list(enc_tid_list(ts)) == Some(ts),
{
    if ts.len() == 0 {
    } else {
        let parts = Seq::new(ts.len(), |i: int| escape_bytes(spec_table_key(ts[i])));
        assert forall|i: int| 0 <= i < parts.len() implies sep_free(
            #[trigger] parts[i],
            REC_SEP,
        ) by {
            lemma_escape_sep_free(spec_table_key(ts[i]));
        }
        lemma_split_join(parts, REC_SEP);
        let b = enc_tid_list(ts);
        assert(parts[0].len() >= 1) by {
            lemma_table_key_nonempty(ts[0]);
            lemma_escape_at_least(spec_table_key(ts[0]));
        }
        assert(b.len() >= parts[0].len()) by {
            if parts.len() == 1 {
            } else {
                assert(b =~= parts[0] + seq![REC_SEP] + join_bytes(parts.drop_first(), REC_SEP));
            }
        }
        let ps = split_bytes(b, REC_SEP);
        assert(ps =~~= parts);
        assert forall|i: int| 0 <= i < ps.len() implies dec_tid_entry(#[trigger] ps[i]) == Some(
            ts[i],
        ) by {
            lemma_unescape_escape(spec_table_key(ts[i]));
            lemma_table_key_round_trip(ts[i]);
        }
        assert(Seq::new(ps.len(), |i: int| dec_tid_entry(ps[i]).unwrap()) =~= ts);
    }
}

/// A valid table identity's key is never empty.
proof fn lemma_table_key_nonempty(t: TableIdentView)
    requires
        valid_table_ident(t),
    ensures
        spec_table_key(t).len() >= 1,
{
    let parts = crate::ident::comps_bytes(t.ns).push(encode_utf8(t.name));
    assert(parts.len() >= 2);
    assert(spec_table_key(t) =~= parts[0] + seq![UNIT_SEP] + join_bytes(
        parts.drop_first(),
        UNIT_SEP,
    ));
}

/// An escaped string is at least as long as the original.
proof fn lemma_escape_at_least(s: Seq<u8>)
    ensures
        escape_bytes(s).len() >= s.len(),
    decreases s.len(),
{
    if s.len() > 0 {
        lemma_escape_at_least(s.drop_first());
    }
}

/// The index record for the given table identities.
#[verifier::loop_isolation(false)]
pub fn encode_tid_list(ts: &Vec<TableIdent>) -> (r: Vec<u8>)
    ensures
        r@ == enc_tid_list(ts.deep_view()),
{
    let n = ts.len();
    if n == 0 {
        return Vec::new();
    }
    let ghost tv = ts.deep_view();
    let ghost target = Seq::new(tv.len(), |i: int| escape_bytes(spec_table_key(tv[i])));
    let mut parts: Vec<Vec<u8>> = Vec::new();
    let mut i: usize = 0;
    while i < n
        invariant
            i <= n,
            n == tv.len(),
            parts@.len() == i,
            forall|j: int| 0 <= j < i ==> #[trigger] parts.deep_view()[j] == target[j],
        decreases n - i,
    {
        let key = ts[i].key_bytes();
        let entry = escape_vec(&key);
        let ghost pre = parts.deep_view();
        parts.push(entry);
        proof {
            assert(tv[i as int] == ts@[i as int]@);
            assert forall|j: int| 0 <= j < i + 1 implies #[trigger] parts.deep_view()[j]
                == target[j] by {
                if j < i {
                    assert(parts.deep_view()[j] == pre[j]);
                } else {
                    assert(parts.deep_view()[j] == parts@[j]@);
                }
            }
        }
        i = i + 1;
    }
    proof {
        assert(parts.deep_view() =~= target);
    }
    join_vec(&parts, REC_SEP)
}

/// A stored index record read back; `None` on a malformed record.
#[verifier::loop_isolation(false)]
pub fn decode_tid_list(b: &Vec<u8>) -> (r: Option<Vec<TableIdent>>)
    ensures
        match r {
            Some(ts) => dec_tid_list(b@) == Some(ts.deep_view()) && (forall|i: int|
                0 <= i < ts.deep_view().len() ==> valid_table_ident(#[trigger] ts.deep_view()[i])),
            None => dec_tid_list(b@) is None,
        },
{
    broadcast use crate::codec::lemma_vec_u8_deep_view;

    if b.len() == 0 {
        let r: Vec<TableIdent> = Vec::new();
        proof {
            assert(r.deep_view() =~= Seq::<TableIdentView>::empty());
        }
        return Some(r);
    }
    let parts = split_vec(b, REC_SEP);
    let ghost ps = split_bytes(b@, REC_SEP);
    let mut ts: Vec<TableIdent> = Vec::new();
    let mut i: usize = 0;
    while i < parts.len()
        invariant
            i <= parts.len(),
            parts.deep_view() == ps,
            ts@.len() == i,
            forall|j: int|
                0 <= j < i ==> dec_tid_entry(#[trigger] ps[j]) is Some && ts.deep_view()[j]
                    == dec_tid_entry(ps[j]).unwrap() && valid_table_ident(ts.deep_view()[j]),
        decreases parts.len() - i,
    {
        proof {
            assert(parts@[i as int]@ == parts.deep_view()[i as int]);
        }
        let unescaped = match unescape_vec(&parts[i]) {
            Some(u) => u,
            None => {
                return None;
            },
        };
        let tid = match TableIdent::from_key_bytes(&unescaped) {
            Some(t) => t,
            None => {
                return None;
            },
        };
        let ghost pre = ts.deep_view();
        ts.push(tid);
        proof {
            assert forall|j: int| 0 <= j < i + 1 implies dec_tid_entry(#[trigger] ps[j]) is Some
                && ts.deep_view()[j] == dec_tid_entry(ps[j]).unwrap() && valid_table_ident(
                ts.deep_view()[j],
            ) by {
                if j < i {
                    assert(ts.deep_view()[j] == pre[j]);
                } else {
                    assert(ts.deep_view()[j] == ts@[j]@);
                }
            }
        }
        i = i + 1;
    }
    proof {
        let ds = dec_tid_list(b@).unwrap();
        assert(ds =~= Seq::new(ps.len(), |j: int| dec_tid_entry(ps[j]).unwrap()));
        assert(ts.deep_view() =~= ds);
    }
    Some(ts)
}

/// A property bag wrapped as a request/response payload.
pub struct Properties(pub PropMap);

/// The protocol shape of a namespace-creation request.
pub struct CreateNamespaceRequest {
    pub namespace: NamespaceIdent,
    pub properties: Option<Properties>,
}

/// The protocol shape of a property-update request.
pub struct UpdateNamespacePropertiesRequest {
    pub removals: Vec<String>,
    pub updates: PropMap,
}

/// A namespace as it appears in protocol responses: its raw components.
pub struct Namespace(pub Vec<String>);

pub struct ListNamespacesResponse {
    pub namespaces: Vec<Namespace>,
}

pub struct CreateNamespaceResponse {
    pub namespace: Namespace,
    pub properties: Option<Properties>,
}

pub struct UpdateNamespacePropertiesResponse {
    pub updated: Vec<String>,
    pub removed: Vec<String>,
    pub missing: Option<Vec<String>>,
}

pub struct GetNamespaceMetadataResponse {
    pub namespace: Namespace,
    pub properties: Option<Properties>,
}

pub struct GetNamespaceResponse {
    pub namespace: Namespace,
    pub properties: Option<Properties>,
}

pub struct ListTablesResponse {
    pub identifiers: Vec<TableIdent>,
}

} // verus!
